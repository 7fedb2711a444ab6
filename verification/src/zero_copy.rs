//! Zero-copy decoding: strings and byte runs are borrowed from the input buffer.
use vstd::prelude::*;
use vstd::utf8::{decode_utf8, valid_utf8};
use vstd::bytes::{spec_u32_from_le_bytes, spec_u64_from_le_bytes};
use std::collections::HashMap;
use crate::error::FluxPackError;
use crate::json::{Json, JsonNumber, JsonValue, values_view, fields_view, lemma_array_view, lemma_object_view,
    lemma_values_view_push};
use crate::outside::{utf8_str, leak_string};
use crate::symbol_table::{common_key, common_ml_key, COMMON_ML_KEY_COUNT};
use crate::varint::{varint_parse, signed_varint_parse, decode_varint_at, decode_signed_varint_at};
use crate::wire::{number_from_u64, number_from_u64_exec, f64_bits_finite, f64_finite, remaining, read_u64_le,
    obj_insert, object_insert, token_of, parse_def, read_def_at};
use crate::float_bits::{widen_f32, widen_f32_bits, i64_to_f64, i64_to_f64_bits};
use crate::text::{str_eq, ascii_chars, hex_bytes, hex_string, timestamp_bytes, timestamp_string};

verus! {

broadcast use vstd::std_specs::hash::group_hash_axioms;

/// A decoded value whose strings and byte runs are borrowed from the input buffer.
#[derive(Debug)]
pub enum ZeroCopyValue<'a> {
    Null,
    Bool(bool),
    Int(i64),
    Uint(u64),
    /// A double, held by its IEEE-754 bit pattern.
    Float64(u64),
    /// A single, held by its IEEE-754 bit pattern.
    Float32(u32),
    String(&'a str),
    Bytes(&'a [u8]),
    Array(Vec<ZeroCopyValue<'a>>),
    Object(Vec<(&'a str, ZeroCopyValue<'a>)>),
    Tensor { dtype: u8, shape: Vec<usize>, data: &'a [u8] },
}

/// The mathematical model of a zero-copy value.
pub ghost enum Zc {
    Null,
    Bool(bool),
    Int(i64),
    Uint(u64),
    Float64(u64),
    Float32(u32),
    Str(Seq<char>),
    Bytes(Seq<u8>),
    Arr(Seq<Zc>),
    Obj(Seq<(Seq<char>, Zc)>),
    Tensor(u8, Seq<usize>, Seq<u8>),
}

pub open spec fn zc_view<'a>(v: ZeroCopyValue<'a>) -> Zc
    decreases v,
{
    match v {
        ZeroCopyValue::Null => Zc::Null,
        ZeroCopyValue::Bool(b) => Zc::Bool(b),
        ZeroCopyValue::Int(i) => Zc::Int(i),
        ZeroCopyValue::Uint(u) => Zc::Uint(u),
        ZeroCopyValue::Float64(b) => Zc::Float64(b),
        ZeroCopyValue::Float32(b) => Zc::Float32(b),
        ZeroCopyValue::String(s) => Zc::Str(s@),
        ZeroCopyValue::Bytes(b) => Zc::Bytes(b@),
        ZeroCopyValue::Array(a) => Zc::Arr(
            Seq::new(a@.len(), |i: int| if 0 <= i < a@.len() { zc_view(a@[i]) } else { Zc::Null }),
        ),
        ZeroCopyValue::Object(o) => Zc::Obj(
            Seq::new(
                o@.len(),
                |i: int| if 0 <= i < o@.len() { (o@[i].0@, zc_view(o@[i].1)) } else { (Seq::empty(), Zc::Null) },
            ),
        ),
        ZeroCopyValue::Tensor { dtype, shape, data } => Zc::Tensor(dtype, shape@, data@),
    }
}

impl<'a> View for ZeroCopyValue<'a> {
    type V = Zc;

    open spec fn view(&self) -> Zc {
        zc_view(*self)
    }
}

/// The models of a sequence of zero-copy values.
pub open spec fn zc_values_view<'a>(v: Seq<ZeroCopyValue<'a>>) -> Seq<Zc> {
    Seq::new(v.len(), |i: int| zc_view(v[i]))
}

/// The models of a sequence of zero-copy fields.
pub open spec fn zc_fields_view<'a>(v: Seq<(&'a str, ZeroCopyValue<'a>)>) -> Seq<(Seq<char>, Zc)> {
    Seq::new(v.len(), |i: int| (v[i].0@, zc_view(v[i].1)))
}

pub proof fn lemma_zc_array_view<'a>(a: Vec<ZeroCopyValue<'a>>)
    ensures
        ZeroCopyValue::Array(a)@ == Zc::Arr(zc_values_view(a@)),
{
    let x = zc_view(ZeroCopyValue::Array(a));
    assert(x->Arr_0 =~= zc_values_view(a@));
}

pub proof fn lemma_zc_object_view<'a>(o: Vec<(&'a str, ZeroCopyValue<'a>)>)
    ensures
        ZeroCopyValue::Object(o)@ == Zc::Obj(zc_fields_view(o@)),
{
    let x = zc_view(ZeroCopyValue::Object(o));
    assert(x->Obj_0 =~= zc_fields_view(o@));
}

/// The first index at or after `i` of a field whose key is `k`.
pub open spec fn zc_find_key(fields: Seq<(Seq<char>, Zc)>, k: Seq<char>, i: int) -> Option<int>
    decreases fields.len() - i,
{
    if i < 0 || i >= fields.len() {
        None
    } else if fields[i].0 == k {
        Some(i)
    } else {
        zc_find_key(fields, k, i + 1)
    }
}

impl<'a> ZeroCopyValue<'a> {
    /// The borrowed string, for a string.
    pub fn as_str(&self) -> (r: Option<&'a str>)
        ensures
            match self@ {
                Zc::Str(s) => r matches Some(x) && x@ == s,
                _ => r is None,
            },
    {
        match self {
            ZeroCopyValue::String(s) => Some(*s),
            _ => None,
        }
    }

    /// The integer, for a signed integer, or an unsigned one taken as its two's complement bits.
    pub fn as_i64(&self) -> (r: Option<i64>)
        ensures
            match self@ {
                Zc::Int(v) => r == Some(v),
                Zc::Uint(v) => r == Some(v as i64),
                _ => r is None,
            },
    {
        match self {
            ZeroCopyValue::Int(v) => Some(*v),
            ZeroCopyValue::Uint(v) => {
                #[verifier::truncate]
                let x = *v as i64;
                Some(x)
            },
            _ => None,
        }
    }

    /// The bits of the double a number reads as: a double's own, a single widened, a signed
    /// integer rounded to the nearest double.
    pub fn as_f64_bits(&self) -> (r: Option<u64>)
        ensures
            match self@ {
                Zc::Float64(b) => r == Some(b),
                Zc::Float32(b) => r == Some(widen_f32(b)),
                Zc::Int(v) => r == Some(i64_to_f64(v)),
                _ => r is None,
            },
    {
        match self {
            ZeroCopyValue::Float64(b) => Some(*b),
            ZeroCopyValue::Float32(b) => Some(widen_f32_bits(*b)),
            ZeroCopyValue::Int(v) => Some(i64_to_f64_bits(*v)),
            _ => None,
        }
    }

    /// The boolean, for a boolean.
    pub fn as_bool(&self) -> (r: Option<bool>)
        ensures
            match self@ {
                Zc::Bool(b) => r == Some(b),
                _ => r is None,
            },
    {
        match self {
            ZeroCopyValue::Bool(v) => Some(*v),
            _ => None,
        }
    }

    /// The fields, for an object.
    pub fn as_object(&self) -> (r: Option<&[(&'a str, ZeroCopyValue<'a>)]>)
        ensures
            match *self {
                ZeroCopyValue::Object(fields) => r matches Some(f) && f@ == fields@,
                _ => r is None,
            },
    {
        match self {
            ZeroCopyValue::Object(fields) => Some(fields.as_slice()),
            _ => None,
        }
    }

    /// The items, for an array.
    pub fn as_array(&self) -> (r: Option<&[ZeroCopyValue<'a>]>)
        ensures
            match *self {
                ZeroCopyValue::Array(items) => r matches Some(a) && a@ == items@,
                _ => r is None,
            },
    {
        match self {
            ZeroCopyValue::Array(arr) => Some(arr.as_slice()),
            _ => None,
        }
    }

    /// The value of the first field named `key`, for an object.
    pub fn get(&self, key: &str) -> (r: Option<&ZeroCopyValue<'a>>)
        ensures
            match self {
                ZeroCopyValue::Object(fields) => match zc_find_key(zc_fields_view(fields@), key@, 0) {
                    Some(i) => r matches Some(v) && *v == fields@[i].1,
                    None => r is None,
                },
                _ => r is None,
            },
    {
        match self {
            ZeroCopyValue::Object(fields) => {
                let ghost fv = zc_fields_view(fields@);
                let mut i: usize = 0;
                while i < fields.len()
                    invariant
                        i <= fields@.len(),
                        fv == zc_fields_view(fields@),
                        *self == ZeroCopyValue::Object(*fields),
                        zc_find_key(fv, key@, 0) == zc_find_key(fv, key@, i as int),
                    decreases fields.len() - i,
                {
                    assert(fv[i as int].0 == fields@[i as int].0@);
                    if str_eq(fields[i].0, key) {
                        assert(zc_find_key(fv, key@, i as int) == Some(i as int));
                        return Some(&fields[i].1);
                    }
                    i = i + 1;
                }
                None
            },
            _ => None,
        }
    }
}

/// The state of a zero-copy symbol table: the key of each token, and the next token.
pub ghost struct ZcTableModel {
    pub keys: Map<u16, Seq<char>>,
    pub next: u16,
}

/// The first `n` common ML keys under tokens 1 to `n`.
pub open spec fn zc_common_keys(n: nat) -> Map<u16, Seq<char>>
    decreases n,
{
    if n == 0 {
        Map::empty()
    } else {
        zc_common_keys((n - 1) as nat).insert(n as u16, common_key(n - 1))
    }
}

/// A new zero-copy table: the 20 common ML keys under tokens 1 to 20, next token 21.
pub open spec fn fresh_zc_table() -> ZcTableModel {
    ZcTableModel { keys: zc_common_keys(20), next: 21 }
}

impl ZcTableModel {
    /// A DEF frame: `k` under `t`, the next token past `t` (wrapping) when `t` reaches it.
    pub open spec fn store_def(self, t: u16, k: Seq<char>) -> ZcTableModel {
        ZcTableModel {
            keys: self.keys.insert(t, k),
            next: if t >= self.next { t.wrapping_add(1) } else { self.next },
        }
    }
}

/// A symbol table whose keys are borrowed from the input buffer.
pub struct ZeroCopySymbolTable<'a> {
    id_to_key: HashMap<u16, &'a str>,
    key_to_id: HashMap<&'a str, u16>,
    next_token: u16,
}

impl<'a> View for ZeroCopySymbolTable<'a> {
    type V = ZcTableModel;

    closed spec fn view(&self) -> ZcTableModel {
        ZcTableModel {
            keys: Map::new(|t: u16| self.id_to_key@.dom().contains(t), |t: u16| self.id_to_key@[t]@),
            next: self.next_token,
        }
    }
}

impl<'a> ZeroCopySymbolTable<'a> {
    /// A table holding the common ML keys under the encoder's pre-defined tokens.
    pub fn new() -> (t: Self)
        ensures
            t@ == fresh_zc_table(),
    {
        let mut table = ZeroCopySymbolTable {
            id_to_key: HashMap::new(),
            key_to_id: HashMap::new(),
            next_token: 1,
        };
        let mut i: usize = 0;
        while i < COMMON_ML_KEY_COUNT
            invariant
                i <= COMMON_ML_KEY_COUNT,
                table.next_token == i + 1,
                table@.keys == zc_common_keys(i as nat),
            decreases COMMON_ML_KEY_COUNT - i,
        {
            let key = common_ml_key(i);
            let ghost before = table@.keys;
            table.id_to_key.insert(table.next_token, key);
            table.key_to_id.insert(key, table.next_token);
            assert(table@.keys =~= before.insert(table.next_token, key@));
            table.next_token = table.next_token + 1;
            i = i + 1;
        }
        assert(table@.keys =~= zc_common_keys(20));
        table
    }

    /// Records a DEF frame's key (borrowed from the input) under its token.
    pub fn store_def(&mut self, token: u16, key: &'a str) -> (r: Result<(), FluxPackError>)
        ensures
            r is Ok,
            final(self)@ == old(self)@.store_def(token, key@),
    {
        let ghost before = self@.keys;
        self.id_to_key.insert(token, key);
        self.key_to_id.insert(key, token);
        assert(self@.keys =~= before.insert(token, key@));
        if token >= self.next_token {
            self.next_token = token.wrapping_add(1);
        }
        Ok(())
    }

    /// The key of a token.
    pub fn resolve(&self, id: u16) -> (r: Option<&'a str>)
        ensures
            match r {
                Some(k) => self@.keys.contains_key(id) && k@ == self@.keys[id],
                None => !self@.keys.contains_key(id),
            },
    {
        match self.id_to_key.get(&id) {
            Some(k) => Some(*k),
            None => None,
        }
    }
}

impl<'a> Default for ZeroCopySymbolTable<'a> {
    fn default() -> (t: Self)
        ensures
            t@ == fresh_zc_table(),
    {
        Self::new()
    }
}

/// Reading one value at `pos` without copying: the value and how many bytes it took.
pub open spec fn parse_zc_value(s: Seq<u8>, pos: nat, keys: Map<u16, Seq<char>>) -> Result<(Zc, nat), FluxPackError>
    decreases remaining(s, pos), 0nat, 0nat,
{
    if pos >= s.len() {
        Err(FluxPackError::BufferOverrun)
    } else {
        let tag = s[pos as int];
        let body = pos + 1;
        if tag == 0x00 {
            Ok((Zc::Null, 1))
        } else if tag == 0x01 {
            Ok((Zc::Bool(true), 1))
        } else if tag == 0x02 {
            Ok((Zc::Bool(false), 1))
        } else if tag == 0x03 {
            match signed_varint_parse(s.skip(body as int)) {
                Ok((i, c)) => Ok((Zc::Int(i), 1 + c)),
                Err(e) => Err(e),
            }
        } else if tag == 0x04 {
            match varint_parse(s.skip(body as int)) {
                Ok((u, c)) => Ok((Zc::Uint(u), 1 + c)),
                Err(e) => Err(e),
            }
        } else if tag == 0x05 {
            match varint_parse(s.skip(body as int)) {
                Ok((len, c)) => {
                    let start = body + c;
                    if len > remaining(s, start) {
                        Err(FluxPackError::BufferOverrun)
                    } else {
                        let bytes = s.subrange(start as int, start + len);
                        if !valid_utf8(bytes) {
                            Err(FluxPackError::InvalidUtf8)
                        } else {
                            Ok((Zc::Str(decode_utf8(bytes)), (1 + c + len) as nat))
                        }
                    }
                },
                Err(e) => Err(e),
            }
        } else if tag == 0x06 {
            if remaining(s, body) < 8 {
                Err(FluxPackError::BufferOverrun)
            } else {
                Ok((Zc::Float64(spec_u64_from_le_bytes(s.subrange(body as int, (body + 8) as int))), 9))
            }
        } else if tag == 0x07 {
            if remaining(s, body) < 4 {
                Err(FluxPackError::BufferOverrun)
            } else {
                Ok((Zc::Float32(spec_u32_from_le_bytes(s.subrange(body as int, (body + 4) as int))), 5))
            }
        } else if tag == 0x08 || tag == 0x0D {
            match varint_parse(s.skip(body as int)) {
                Ok((len, c)) => {
                    let start = body + c;
                    if len > remaining(s, start) {
                        Err(FluxPackError::BufferOverrun)
                    } else {
                        Ok((Zc::Bytes(s.subrange(start as int, start + len)), (1 + c + len) as nat))
                    }
                },
                Err(e) => Err(e),
            }
        } else if tag == 0x09 {
            match varint_parse(s.skip(body as int)) {
                Ok((n, c)) => match parse_zc_items(s, body + c, n as nat, keys, Seq::empty()) {
                    Ok((items, used)) => Ok((Zc::Arr(items), 1 + c + used)),
                    Err(e) => Err(e),
                },
                Err(e) => Err(e),
            }
        } else if tag == 0x0A {
            match varint_parse(s.skip(body as int)) {
                Ok((n, c)) => match parse_zc_fields(s, body + c, n as nat, keys, Seq::empty()) {
                    Ok((fields, used)) => Ok((Zc::Obj(fields), 1 + c + used)),
                    Err(e) => Err(e),
                },
                Err(e) => Err(e),
            }
        } else if tag == 0x0B {
            match varint_parse(s.skip(body as int)) {
                Ok((t, c)) => if keys.contains_key(token_of(t)) {
                    Ok((Zc::Str(keys[token_of(t)]), 1 + c))
                } else {
                    Err(FluxPackError::UnknownToken(token_of(t)))
                },
                Err(e) => Err(e),
            }
        } else if tag == 0x0C {
            match varint_parse(s.skip(body as int)) {
                Ok((ts, c)) => Ok((Zc::Str(ascii_chars(timestamp_bytes(ts))), 1 + c)),
                Err(e) => Err(e),
            }
        } else {
            Err(FluxPackError::InvalidValueType(tag))
        }
    }
}

/// Reading `n` more array items from `pos` after `acc`.
pub open spec fn parse_zc_items(s: Seq<u8>, pos: nat, n: nat, keys: Map<u16, Seq<char>>, acc: Seq<Zc>)
    -> Result<(Seq<Zc>, nat), FluxPackError>
    decreases remaining(s, pos), 1nat, n,
{
    if n == 0 {
        Ok((acc, 0))
    } else {
        match parse_zc_value(s, pos, keys) {
            Ok((v, c)) => match parse_zc_items(s, pos + c, (n - 1) as nat, keys, acc.push(v)) {
                Ok((items, used)) => Ok((items, c + used)),
                Err(e) => Err(e),
            },
            Err(e) => Err(e),
        }
    }
}

/// Reading `n` more `token, value` fields from `pos` after `acc`, every field kept in order.
pub open spec fn parse_zc_fields(s: Seq<u8>, pos: nat, n: nat, keys: Map<u16, Seq<char>>, acc: Seq<(Seq<char>, Zc)>)
    -> Result<(Seq<(Seq<char>, Zc)>, nat), FluxPackError>
    decreases remaining(s, pos), 1nat, n,
{
    if n == 0 {
        Ok((acc, 0))
    } else {
        match varint_parse(s.skip(pos as int)) {
            Ok((t, c1)) => if keys.contains_key(token_of(t)) {
                match parse_zc_value(s, pos + c1, keys) {
                    Ok((v, c2)) => match parse_zc_fields(s, pos + c1 + c2, (n - 1) as nat, keys,
                        acc.push((keys[token_of(t)], v))) {
                        Ok((fields, used)) => Ok((fields, c1 + c2 + used)),
                        Err(e) => Err(e),
                    },
                    Err(e) => Err(e),
                }
            } else {
                Err(FluxPackError::UnknownToken(token_of(t)))
            },
            Err(e) => Err(e),
        }
    }
}

/// A DATA frame's body at `pos`, read without copying: the object and the bytes it took.
pub open spec fn parse_zc_data(s: Seq<u8>, pos: nat, keys: Map<u16, Seq<char>>) -> Result<(Zc, nat), FluxPackError> {
    match varint_parse(s.skip(pos as int)) {
        Ok((n, c)) => match parse_zc_fields(s, pos + c, n as nat, keys, Seq::empty()) {
            Ok((fields, used)) => Ok((Zc::Obj(fields), c + used)),
            Err(e) => Err(e),
        },
        Err(e) => Err(e),
    }
}

/// Zero-copy decoding of the frames from `pos`: DEF frames record their keys, the first
/// DATA frame gives the result; an EOS frame or the end of the input before one is a
/// malformed stream.
pub open spec fn zc_decode_frames(s: Seq<u8>, pos: nat, t: ZcTableModel) -> Result<Zc, FluxPackError>
    decreases remaining(s, pos),
{
    if pos >= s.len() {
        Err(FluxPackError::MalformedFrame)
    } else {
        let tag = s[pos as int];
        if tag == 0x01 {
            match parse_def(s, pos + 1) {
                Ok((tok, key, c)) => zc_decode_frames(s, pos + 1 + c, t.store_def(token_of(tok), key)),
                Err(e) => Err(e),
            }
        } else if tag == 0x02 {
            match parse_zc_data(s, pos + 1, t.keys) {
                Ok((v, _c)) => Ok(v),
                Err(e) => Err(e),
            }
        } else if tag == 0xFF {
            Err(FluxPackError::MalformedFrame)
        } else {
            Err(FluxPackError::InvalidValueType(tag))
        }
    }
}

/// Zero-copy decoding of every frame from `pos`: each DATA frame adds a value to `acc`, an
/// EOS frame or the end of the input ends the stream.
pub open spec fn zc_decode_all(s: Seq<u8>, pos: nat, t: ZcTableModel, acc: Seq<Zc>) -> Result<Seq<Zc>, FluxPackError>
    decreases remaining(s, pos),
{
    if pos >= s.len() {
        Ok(acc)
    } else {
        let tag = s[pos as int];
        if tag == 0x01 {
            match parse_def(s, pos + 1) {
                Ok((tok, key, c)) => zc_decode_all(s, pos + 1 + c, t.store_def(token_of(tok), key), acc),
                Err(e) => Err(e),
            }
        } else if tag == 0x02 {
            match parse_zc_data(s, pos + 1, t.keys) {
                Ok((v, c)) => zc_decode_all(s, pos + 1 + c, t, acc.push(v)),
                Err(e) => Err(e),
            }
        } else if tag == 0xFF {
            Ok(acc)
        } else {
            Err(FluxPackError::InvalidValueType(tag))
        }
    }
}

/// Decodes the value at `pos` without copying; returns it and the bytes it took.
fn decode_value_zero_copy<'a>(input: &'a [u8], pos: usize, table: &ZeroCopySymbolTable<'a>)
    -> (r: Result<(ZeroCopyValue<'a>, usize), FluxPackError>)
    requires
        pos <= input@.len(),
    ensures
        match r {
            Ok((v, c)) => parse_zc_value(input@, pos as nat, table@.keys) == Ok::<(Zc, nat), FluxPackError>((v@, c as nat))
                && pos + c <= input@.len(),
            Err(e) => parse_zc_value(input@, pos as nat, table@.keys) == Err::<(Zc, nat), FluxPackError>(e),
        },
    decreases input@.len() - pos,
{
    let ghost keys = table@.keys;
    let ilen = input.len();
    if pos >= ilen {
        return Err(FluxPackError::BufferOverrun);
    }
    let tag = input[pos];
    let body = pos + 1;
    if tag == 0x00 {
        Ok((ZeroCopyValue::Null, 1))
    } else if tag == 0x01 {
        Ok((ZeroCopyValue::Bool(true), 1))
    } else if tag == 0x02 {
        Ok((ZeroCopyValue::Bool(false), 1))
    } else if tag == 0x03 {
        match decode_signed_varint_at(input, body) {
            Ok((i, c)) => Ok((ZeroCopyValue::Int(i), 1 + c)),
            Err(e) => Err(e),
        }
    } else if tag == 0x04 {
        match decode_varint_at(input, body) {
            Ok((u, c)) => Ok((ZeroCopyValue::Uint(u), 1 + c)),
            Err(e) => Err(e),
        }
    } else if tag == 0x05 {
        match decode_varint_at(input, body) {
            Ok((len, c)) => {
                let start = body + c;
                if len > (input.len() - start) as u64 {
                    return Err(FluxPackError::BufferOverrun);
                }
                let end = start + len as usize;
                match utf8_str(input, start, end) {
                    Ok(st) => Ok((ZeroCopyValue::String(st), end - pos)),
                    Err(_) => Err(FluxPackError::InvalidUtf8),
                }
            },
            Err(e) => Err(e),
        }
    } else if tag == 0x06 {
        if input.len() - body < 8 {
            return Err(FluxPackError::BufferOverrun);
        }
        Ok((ZeroCopyValue::Float64(read_u64_le(input, body)), 9))
    } else if tag == 0x07 {
        if input.len() - body < 4 {
            return Err(FluxPackError::BufferOverrun);
        }
        let x = vstd::bytes::u32_from_le_bytes(vstd::slice::slice_subrange(input, body, body + 4));
        Ok((ZeroCopyValue::Float32(x), 5))
    } else if tag == 0x08 || tag == 0x0D {
        match decode_varint_at(input, body) {
            Ok((len, c)) => {
                let start = body + c;
                if len > (input.len() - start) as u64 {
                    return Err(FluxPackError::BufferOverrun);
                }
                let end = start + len as usize;
                Ok((ZeroCopyValue::Bytes(vstd::slice::slice_subrange(input, start, end)), end - pos))
            },
            Err(e) => Err(e),
        }
    } else if tag == 0x09 {
        match decode_varint_at(input, body) {
            Ok((n, c)) => {
                let first = body + c;
                let mut items: Vec<ZeroCopyValue<'a>> = Vec::new();
                let mut cur = first;
                let mut left = n;
                assert(zc_values_view(items@) =~= Seq::<Zc>::empty());
                while left > 0
                    invariant
                        pos < first <= cur <= input@.len(),
                        ilen == input@.len(),
                        first == pos + 1 + c,
                        keys == table@.keys,
                        parse_zc_value(input@, pos as nat, keys) == match parse_zc_items(input@, first as nat, n as nat, keys, Seq::empty()) {
                            Ok((all, used)) => Ok::<(Zc, nat), FluxPackError>((Zc::Arr(all), (1 + c + used) as nat)),
                            Err(e) => Err(e),
                        },
                        parse_zc_items(input@, first as nat, n as nat, keys, Seq::empty()) == match parse_zc_items(
                            input@, cur as nat, left as nat, keys, zc_values_view(items@)) {
                            Ok((all, used)) => Ok::<(Seq<Zc>, nat), FluxPackError>((all, (used + (cur - first)) as nat)),
                            Err(e) => Err(e),
                        },
                    decreases left,
                {
                    match decode_value_zero_copy(input, cur, table) {
                        Ok((v, cc)) => {
                            let ghost before = items@;
                            items.push(v);
                            assert(zc_values_view(items@) =~= zc_values_view(before).push(v@));
                            cur = cur + cc;
                            left = left - 1;
                        },
                        Err(e) => {
                            assert(parse_zc_items(input@, cur as nat, left as nat, keys, zc_values_view(items@)) == Err::<(Seq<Zc>, nat), FluxPackError>(e));
                            return Err(e);
                        },
                    }
                }
                proof {
                    lemma_zc_array_view(items);
                }
                Ok((ZeroCopyValue::Array(items), cur - pos))
            },
            Err(e) => Err(e),
        }
    } else if tag == 0x0A {
        match decode_varint_at(input, body) {
            Ok((n, c)) => {
                let first = body + c;
                let mut fields: Vec<(&'a str, ZeroCopyValue<'a>)> = Vec::new();
                let mut cur = first;
                let mut left = n;
                assert(zc_fields_view(fields@) =~= Seq::<(Seq<char>, Zc)>::empty());
                while left > 0
                    invariant
                        pos < first <= cur <= input@.len(),
                        ilen == input@.len(),
                        first == pos + 1 + c,
                        keys == table@.keys,
                        parse_zc_value(input@, pos as nat, keys) == match parse_zc_fields(input@, first as nat, n as nat, keys, Seq::empty()) {
                            Ok((all, used)) => Ok::<(Zc, nat), FluxPackError>((Zc::Obj(all), (1 + c + used) as nat)),
                            Err(e) => Err(e),
                        },
                        parse_zc_fields(input@, first as nat, n as nat, keys, Seq::empty()) == match parse_zc_fields(
                            input@, cur as nat, left as nat, keys, zc_fields_view(fields@)) {
                            Ok((all, used)) => Ok::<(Seq<(Seq<char>, Zc)>, nat), FluxPackError>((all, (used + (cur - first)) as nat)),
                            Err(e) => Err(e),
                        },
                    decreases left,
                {
                    let ghost fv = zc_fields_view(fields@);
                    let (t, c1) = match decode_varint_at(input, cur) {
                        Ok(x) => x,
                        Err(e) => {
                            assert(parse_zc_fields(input@, cur as nat, left as nat, keys, fv) == Err::<(Seq<(Seq<char>, Zc)>, nat), FluxPackError>(e));
                            return Err(e);
                        },
                    };
                    #[verifier::truncate]
                    let token = t as u16;
                    let key = match table.resolve(token) {
                        Some(k) => k,
                        None => {
                            assert(parse_zc_fields(input@, cur as nat, left as nat, keys, fv) == Err::<(Seq<(Seq<char>, Zc)>, nat), FluxPackError>(FluxPackError::UnknownToken(token)));
                            return Err(FluxPackError::UnknownToken(token));
                        },
                    };
                    match decode_value_zero_copy(input, cur + c1, table) {
                        Ok((v, c2)) => {
                            let ghost before = fields@;
                            fields.push((key, v));
                            assert(zc_fields_view(fields@) =~= zc_fields_view(before).push((key@, v@)));
                            cur = cur + c1 + c2;
                            left = left - 1;
                        },
                        Err(e) => {
                            assert(parse_zc_fields(input@, cur as nat, left as nat, keys, fv) == Err::<(Seq<(Seq<char>, Zc)>, nat), FluxPackError>(e));
                            return Err(e);
                        },
                    }
                }
                proof {
                    lemma_zc_object_view(fields);
                }
                Ok((ZeroCopyValue::Object(fields), cur - pos))
            },
            Err(e) => Err(e),
        }
    } else if tag == 0x0B {
        match decode_varint_at(input, body) {
            Ok((t, c)) => {
                #[verifier::truncate]
                let token = t as u16;
                match table.resolve(token) {
                    Some(k) => Ok((ZeroCopyValue::String(k), 1 + c)),
                    None => Err(FluxPackError::UnknownToken(token)),
                }
            },
            Err(e) => Err(e),
        }
    } else if tag == 0x0C {
        match decode_varint_at(input, body) {
            Ok((ts, c)) => Ok((ZeroCopyValue::String(leak_string(timestamp_string(ts))), 1 + c)),
            Err(e) => Err(e),
        }
    } else {
        Err(FluxPackError::InvalidValueType(tag))
    }
}

/// Decodes a DATA frame's body at `pos` without copying; returns the object and the bytes
/// it took.
fn decode_data_frame_zero_copy<'a>(input: &'a [u8], pos: usize, table: &ZeroCopySymbolTable<'a>)
    -> (r: Result<(ZeroCopyValue<'a>, usize), FluxPackError>)
    requires
        pos <= input@.len(),
    ensures
        match r {
            Ok((v, c)) => parse_zc_data(input@, pos as nat, table@.keys) == Ok::<(Zc, nat), FluxPackError>((v@, c as nat))
                && pos + c <= input@.len(),
            Err(e) => parse_zc_data(input@, pos as nat, table@.keys) == Err::<(Zc, nat), FluxPackError>(e),
        },
{
    let ghost keys = table@.keys;
    let ilen = input.len();
    let (n, c) = match decode_varint_at(input, pos) {
        Ok(x) => x,
        Err(e) => {
            return Err(e);
        },
    };
    let first = pos + c;
    let mut fields: Vec<(&'a str, ZeroCopyValue<'a>)> = Vec::new();
    let mut cur = first;
    let mut left = n;
    assert(zc_fields_view(fields@) =~= Seq::<(Seq<char>, Zc)>::empty());
    while left > 0
        invariant
            pos <= first <= cur <= input@.len(),
            ilen == input@.len(),
            first == pos + c,
            keys == table@.keys,
            parse_zc_data(input@, pos as nat, keys) == match parse_zc_fields(input@, first as nat, n as nat, keys, Seq::empty()) {
                Ok((all, used)) => Ok::<(Zc, nat), FluxPackError>((Zc::Obj(all), (c + used) as nat)),
                Err(e) => Err(e),
            },
            parse_zc_fields(input@, first as nat, n as nat, keys, Seq::empty()) == match parse_zc_fields(
                input@, cur as nat, left as nat, keys, zc_fields_view(fields@)) {
                Ok((all, used)) => Ok::<(Seq<(Seq<char>, Zc)>, nat), FluxPackError>((all, (used + (cur - first)) as nat)),
                Err(e) => Err(e),
            },
        decreases left,
    {
        let ghost fv = zc_fields_view(fields@);
        let (t, c1) = match decode_varint_at(input, cur) {
            Ok(x) => x,
            Err(e) => {
                assert(parse_zc_fields(input@, cur as nat, left as nat, keys, fv) == Err::<(Seq<(Seq<char>, Zc)>, nat), FluxPackError>(e));
                return Err(e);
            },
        };
        #[verifier::truncate]
        let token = t as u16;
        let key = match table.resolve(token) {
            Some(k) => k,
            None => {
                assert(parse_zc_fields(input@, cur as nat, left as nat, keys, fv) == Err::<(Seq<(Seq<char>, Zc)>, nat), FluxPackError>(FluxPackError::UnknownToken(token)));
                return Err(FluxPackError::UnknownToken(token));
            },
        };
        match decode_value_zero_copy(input, cur + c1, table) {
            Ok((v, c2)) => {
                let ghost before = fields@;
                fields.push((key, v));
                assert(zc_fields_view(fields@) =~= zc_fields_view(before).push((key@, v@)));
                cur = cur + c1 + c2;
                left = left - 1;
            },
            Err(e) => {
                assert(parse_zc_fields(input@, cur as nat, left as nat, keys, fv) == Err::<(Seq<(Seq<char>, Zc)>, nat), FluxPackError>(e));
                return Err(e);
            },
        }
    }
    proof {
        lemma_zc_object_view(fields);
    }
    Ok((ZeroCopyValue::Object(fields), cur - pos))
}

/// Decode a FluxPack stream into a zero-copy value: DEF frames, then one DATA frame. Every
/// string and byte run is borrowed from `input`.
pub fn decode_zero_copy<'a>(input: &'a [u8]) -> (r: Result<ZeroCopyValue<'a>, FluxPackError>)
    ensures
        match zc_decode_frames(input@, 0, fresh_zc_table()) {
            Ok(v) => r matches Ok(x) && x@ == v,
            Err(e) => r matches Err(x) && x == e,
        },
{
    let ilen = input.len();
    let mut cursor: usize = 0;
    let mut table = ZeroCopySymbolTable::new();
    while cursor < ilen
        invariant
            ilen == input@.len(),
            cursor <= ilen,
            zc_decode_frames(input@, 0, fresh_zc_table()) == zc_decode_frames(input@, cursor as nat, table@),
        decreases ilen - cursor,
    {
        let frame_type = input[cursor];
        cursor = cursor + 1;
        if frame_type == 0x01 {
            let (t, key, consumed) = match read_def_at(input, cursor) {
                Ok(x) => x,
                Err(e) => {
                    return Err(e);
                },
            };
            #[verifier::truncate]
            let token = t as u16;
            let _ = table.store_def(token, key);
            cursor = cursor + consumed;
        } else if frame_type == 0x02 {
            return match decode_data_frame_zero_copy(input, cursor, &table) {
                Ok((v, _)) => Ok(v),
                Err(e) => Err(e),
            };
        } else if frame_type == 0xFF {
            return Err(FluxPackError::MalformedFrame);
        } else {
            return Err(FluxPackError::InvalidValueType(frame_type));
        }
    }
    Err(FluxPackError::MalformedFrame)
}

/// Decode every DATA frame of a zero-copy stream, in order.
pub fn decode_all_zero_copy<'a>(input: &'a [u8]) -> (r: Result<Vec<ZeroCopyValue<'a>>, FluxPackError>)
    ensures
        match zc_decode_all(input@, 0, fresh_zc_table(), Seq::empty()) {
            Ok(vs) => r matches Ok(x) && zc_values_view(x@) == vs,
            Err(e) => r matches Err(x) && x == e,
        },
{
    let ilen = input.len();
    let mut cursor: usize = 0;
    let mut table = ZeroCopySymbolTable::new();
    let mut results: Vec<ZeroCopyValue<'a>> = Vec::new();
    assert(zc_values_view(results@) =~= Seq::<Zc>::empty());
    while cursor < ilen
        invariant
            ilen == input@.len(),
            cursor <= ilen,
            zc_decode_all(input@, 0, fresh_zc_table(), Seq::empty())
                == zc_decode_all(input@, cursor as nat, table@, zc_values_view(results@)),
        decreases ilen - cursor,
    {
        let frame_type = input[cursor];
        cursor = cursor + 1;
        if frame_type == 0x01 {
            let (t, key, consumed) = match read_def_at(input, cursor) {
                Ok(x) => x,
                Err(e) => {
                    return Err(e);
                },
            };
            #[verifier::truncate]
            let token = t as u16;
            let _ = table.store_def(token, key);
            cursor = cursor + consumed;
        } else if frame_type == 0x02 {
            match decode_data_frame_zero_copy(input, cursor, &table) {
                Ok((v, consumed)) => {
                    let ghost before = results@;
                    results.push(v);
                    assert(zc_values_view(results@) =~= zc_values_view(before).push(v@));
                    cursor = cursor + consumed;
                },
                Err(e) => {
                    return Err(e);
                },
            }
        } else if frame_type == 0xFF {
            return Ok(results);
        } else {
            return Err(FluxPackError::InvalidValueType(frame_type));
        }
    }
    Ok(results)
}

/// A double as an owned JSON number: the number when finite, else the integer 0.
pub open spec fn owned_float(bits: u64) -> Json {
    if f64_bits_finite(bits) {
        Json::Num(JsonNumber::Float(bits))
    } else {
        Json::Num(JsonNumber::Int(0))
    }
}

/// The owned JSON value of a zero-copy value: unsigned integers as `Number::from(u64)`,
/// non-finite floats as 0, byte runs as lowercase hex strings, object fields inserted in
/// order (a repeated key keeps its first place and takes the last value), tensors as null.
pub open spec fn zc_to_json(v: Zc) -> Json
    decreases v, 0nat,
{
    match v {
        Zc::Null => Json::Null,
        Zc::Bool(b) => Json::Bool(b),
        Zc::Int(i) => Json::Num(JsonNumber::Int(i)),
        Zc::Uint(u) => Json::Num(number_from_u64(u)),
        Zc::Float64(b) => owned_float(b),
        Zc::Float32(b) => owned_float(widen_f32(b)),
        Zc::Str(s) => Json::Str(s),
        Zc::Bytes(b) => Json::Str(ascii_chars(hex_bytes(b))),
        Zc::Arr(items) => Json::Arr(zc_items_json(items, items.len())),
        Zc::Obj(fields) => Json::Obj(zc_fields_json(fields, fields.len())),
        Zc::Tensor(_, _, _) => Json::Null,
    }
}

/// The owned values of the first `n` items.
pub open spec fn zc_items_json(items: Seq<Zc>, n: nat) -> Seq<Json>
    decreases items, n,
{
    if n == 0 || n > items.len() {
        Seq::empty()
    } else {
        zc_items_json(items, (n - 1) as nat).push(zc_to_json(items[n - 1]))
    }
}

/// The owned object of the first `n` fields, inserted in order.
pub open spec fn zc_fields_json(fields: Seq<(Seq<char>, Zc)>, n: nat) -> Seq<(Seq<char>, Json)>
    decreases fields, n,
{
    if n == 0 || n > fields.len() {
        Seq::empty()
    } else {
        obj_insert(zc_fields_json(fields, (n - 1) as nat), fields[n - 1].0, zc_to_json(fields[n - 1].1))
    }
}

/// Convert a zero-copy value to an owned JSON value.
pub fn to_owned(value: &ZeroCopyValue) -> (r: JsonValue)
    ensures
        r@ == zc_to_json(value@),
    decreases value@,
{
    match value {
        ZeroCopyValue::Null => JsonValue::Null,
        ZeroCopyValue::Bool(b) => JsonValue::Bool(*b),
        ZeroCopyValue::Int(i) => JsonValue::Number(JsonNumber::Int(*i)),
        ZeroCopyValue::Uint(u) => JsonValue::Number(number_from_u64_exec(*u)),
        ZeroCopyValue::Float64(b) => {
            if f64_finite(*b) {
                JsonValue::Number(JsonNumber::Float(*b))
            } else {
                JsonValue::Number(JsonNumber::Int(0))
            }
        },
        ZeroCopyValue::Float32(b) => {
            let w = widen_f32_bits(*b);
            if f64_finite(w) {
                JsonValue::Number(JsonNumber::Float(w))
            } else {
                JsonValue::Number(JsonNumber::Int(0))
            }
        },
        ZeroCopyValue::String(s) => JsonValue::String((*s).to_owned()),
        ZeroCopyValue::Bytes(b) => JsonValue::String(hex_string(b)),
        ZeroCopyValue::Array(a) => {
            proof {
                lemma_zc_array_view(*a);
            }
            let ghost av = zc_values_view(a@);
            let mut out: Vec<JsonValue> = Vec::new();
            let mut i: usize = 0;
            assert(values_view(out@) =~= zc_items_json(av, 0));
            while i < a.len()
                invariant
                    i <= a@.len(),
                    av == zc_values_view(a@),
                    value@ == Zc::Arr(av),
                    values_view(out@) == zc_items_json(av, i as nat),
                decreases a.len() - i,
            {
                proof {
                    assert(value@->Arr_0 == av);
                    assert(decreases_to!(value@ => av));
                    assert(decreases_to!(av => av[i as int]));
                    assert(av[i as int] == a@[i as int]@);
                }
                let c = to_owned(&a[i]);
                proof {
                    lemma_values_view_push(out@, c);
                }
                out.push(c);
                i = i + 1;
            }
            proof {
                lemma_array_view(out);
            }
            JsonValue::Array(out)
        },
        ZeroCopyValue::Object(o) => {
            proof {
                lemma_zc_object_view(*o);
            }
            let ghost fv = zc_fields_view(o@);
            let mut out: Vec<(String, JsonValue)> = Vec::new();
            let mut i: usize = 0;
            assert(fields_view(out@) =~= zc_fields_json(fv, 0));
            while i < o.len()
                invariant
                    i <= o@.len(),
                    fv == zc_fields_view(o@),
                    value@ == Zc::Obj(fv),
                    fields_view(out@) == zc_fields_json(fv, i as nat),
                decreases o.len() - i,
            {
                proof {
                    assert(value@->Obj_0 == fv);
                    assert(decreases_to!(value@ => fv));
                    assert(decreases_to!(fv => fv[i as int]));
                    assert(decreases_to!(fv[i as int] => fv[i as int].1));
                    assert(fv[i as int].1 == o@[i as int].1@);
                }
                let c = to_owned(&o[i].1);
                let k = o[i].0.to_owned();
                object_insert(&mut out, k, c);
                i = i + 1;
            }
            proof {
                lemma_object_view(out);
            }
            JsonValue::Object(out)
        },
        ZeroCopyValue::Tensor { .. } => JsonValue::Null,
    }
}

} // verus!
