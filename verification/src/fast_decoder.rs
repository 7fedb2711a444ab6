//! A decoder for ML workloads: a key cache indexed by token, the common ML keys cached
//! from the start, inline payloads, columnar frames, and extra value tags (f32, bytes,
//! token references, timestamps).
use vstd::prelude::*;
use vstd::utf8::{decode_utf8, valid_utf8};
use vstd::bytes::{spec_u32_from_le_bytes, spec_u64_from_le_bytes};
use ahash::AHashMap;
use crate::error::FluxPackError;
use crate::json::{Json, JsonNumber, JsonValue, values_view, fields_view, lemma_array_view, lemma_object_view,
    lemma_values_view_push};
use crate::outside::{utf8_str, key_index, key_index_new, key_index_insert};
use crate::symbol_table::{common_key, common_ml_key, predefined_index, strings_view, lemma_strings_view_push,
    COMMON_ML_KEY_COUNT};
use crate::varint::{varint_parse, signed_varint_parse, decode_varint_at, decode_signed_varint_at};
use crate::wire::{number_from_u64, number_from_u64_exec, float_value, f64_finite, remaining, read_u64_le,
    obj_insert, object_insert, token_of, parse_def, read_def_at};
use crate::columnar::{parse_columnar, rebuilt_array, decode_columnar, reconstruct_array};
use crate::float_bits::{widen_f32, widen_f32_bits};
use crate::text::{ascii_chars, hex_bytes, hex_string, timestamp_bytes, timestamp_string};
use crate::inline::{INLINE_MAGIC, InlineFault, parse_inline, fault_text, decode_inline};
use crate::MAX_TOKENS;

verus! {

/// The key cached under token `t`, if any (an empty string counts as none).
pub open spec fn cache_get(keys: Seq<Seq<char>>, t: u16) -> Option<Seq<char>> {
    if (t as int) < keys.len() && keys[t as int].len() > 0 {
        Some(keys[t as int])
    } else {
        None
    }
}

/// Caching `k` under token `t`: a key already cached there stays; otherwise the cache
/// grows with empty entries as far as `t` and holds `k` there.
pub open spec fn cache_put(keys: Seq<Seq<char>>, t: u16, k: Seq<char>) -> Seq<Seq<char>> {
    if (t as int) < keys.len() && keys[t as int].len() > 0 {
        keys
    } else if (t as int) < keys.len() {
        keys.update(t as int, k)
    } else {
        (keys + Seq::new((t - keys.len() + 1) as nat, |i: int| Seq::<char>::empty())).update(t as int, k)
    }
}

/// The common ML keys, cached under tokens 1 to 20 (token 0 holds none).
pub open spec fn common_keys() -> Seq<Seq<char>> {
    seq![Seq::<char>::empty()] + Seq::new(COMMON_ML_KEY_COUNT as nat, |i: int| common_key(i))
}

/// The state of a fast decoder: its key cache, its key-to-token map, the next token.
pub ghost struct FastModel {
    pub keys: Seq<Seq<char>>,
    pub ids: Map<Seq<char>, u16>,
    pub next: u16,
}

/// A new fast decoder: the common keys cached under tokens 1 to 20 and mapped to those
/// tokens, next token 21.
pub open spec fn fresh_fast_model() -> FastModel {
    FastModel { keys: common_keys(), ids: predefined_index(20), next: 21 }
}

impl FastModel {
    /// A DEF frame for token `t` and key `k`: refused above `MAX_TOKENS`; otherwise the key
    /// is cached (unless the token already has one) and mapped, by its cached text, to `t`.
    pub open spec fn store_def(self, t: u16, k: Seq<char>) -> (Result<(), FluxPackError>, FastModel) {
        if t > MAX_TOKENS {
            (Err(FluxPackError::TableOverflow), self)
        } else {
            let keys = cache_put(self.keys, t, k);
            (
                Ok(()),
                FastModel {
                    keys,
                    ids: self.ids.insert(keys[t as int], t),
                    next: if t >= self.next { (t + 1) as u16 } else { self.next },
                },
            )
        }
    }
}

/// Reading one value at `pos` with the fast decoder's grammar: the value and how many bytes
/// it took.
pub open spec fn parse_fast_value(s: Seq<u8>, pos: nat, keys: Seq<Seq<char>>) -> Result<(Json, nat), FluxPackError>
    decreases remaining(s, pos), 0nat, 0nat,
{
    if pos >= s.len() {
        Err(FluxPackError::BufferOverrun)
    } else {
        let tag = s[pos as int];
        let body = pos + 1;
        if tag == 0x00 {
            Ok((Json::Null, 1))
        } else if tag == 0x01 {
            Ok((Json::Bool(true), 1))
        } else if tag == 0x02 {
            Ok((Json::Bool(false), 1))
        } else if tag == 0x03 {
            match signed_varint_parse(s.skip(body as int)) {
                Ok((i, c)) => Ok((Json::Num(JsonNumber::Int(i)), 1 + c)),
                Err(e) => Err(e),
            }
        } else if tag == 0x04 {
            match varint_parse(s.skip(body as int)) {
                Ok((u, c)) => Ok((Json::Num(number_from_u64(u)), 1 + c)),
                Err(e) => Err(e),
            }
        } else if tag == 0x05 {
            match varint_parse(s.skip(body as int)) {
                Ok((len, c)) => {
                    let start = body + c;
                    if len > remaining(s, start) {
                        Err(FluxPackError::BufferOverrun)
                    } else {
                        let bytes = s.subrange(start as int, start + len);
                        if !valid_utf8(bytes) {
                            Err(FluxPackError::InvalidUtf8)
                        } else {
                            Ok((Json::Str(decode_utf8(bytes)), (1 + c + len) as nat))
                        }
                    }
                },
                Err(e) => Err(e),
            }
        } else if tag == 0x06 {
            if remaining(s, body) < 8 {
                Err(FluxPackError::BufferOverrun)
            } else {
                Ok((float_value(spec_u64_from_le_bytes(s.subrange(body as int, (body + 8) as int))), 9))
            }
        } else if tag == 0x07 {
            if remaining(s, body) < 4 {
                Err(FluxPackError::BufferOverrun)
            } else {
                Ok((float_value(widen_f32(spec_u32_from_le_bytes(s.subrange(body as int, (body + 4) as int)))), 5))
            }
        } else if tag == 0x08 {
            match varint_parse(s.skip(body as int)) {
                Ok((len, c)) => {
                    let start = body + c;
                    if len > remaining(s, start) {
                        Err(FluxPackError::BufferOverrun)
                    } else {
                        Ok((Json::Str(ascii_chars(hex_bytes(s.subrange(start as int, start + len)))),
                            (1 + c + len) as nat))
                    }
                },
                Err(e) => Err(e),
            }
        } else if tag == 0x09 {
            match varint_parse(s.skip(body as int)) {
                Ok((n, c)) => match parse_fast_items(s, body + c, n as nat, keys, Seq::empty()) {
                    Ok((items, used)) => Ok((Json::Arr(items), 1 + c + used)),
                    Err(e) => Err(e),
                },
                Err(e) => Err(e),
            }
        } else if tag == 0x0A {
            match varint_parse(s.skip(body as int)) {
                Ok((n, c)) => match parse_fast_fields(s, body + c, n as nat, keys, Seq::empty()) {
                    Ok((fields, used)) => Ok((Json::Obj(fields), 1 + c + used)),
                    Err(e) => Err(e),
                },
                Err(e) => Err(e),
            }
        } else if tag == 0x0B {
            match varint_parse(s.skip(body as int)) {
                Ok((t, c)) => match cache_get(keys, token_of(t)) {
                    Some(k) => Ok((Json::Str(k), 1 + c)),
                    None => Err(FluxPackError::UnknownToken(token_of(t))),
                },
                Err(e) => Err(e),
            }
        } else if tag == 0x0C {
            match varint_parse(s.skip(body as int)) {
                Ok((ts, c)) => Ok((Json::Str(ascii_chars(timestamp_bytes(ts))), 1 + c)),
                Err(e) => Err(e),
            }
        } else if tag == 0x0D {
            match varint_parse(s.skip(body as int)) {
                Ok((len, c)) => {
                    let start = body + c;
                    if len > remaining(s, start) {
                        Err(FluxPackError::BufferOverrun)
                    } else {
                        match parse_columnar(s.subrange(start as int, start + len)) {
                            Ok((rows, cols, _)) => Ok((rebuilt_array(rows, cols), (1 + c + len) as nat)),
                            Err(e) => Err(e),
                        }
                    }
                },
                Err(e) => Err(e),
            }
        } else {
            Err(FluxPackError::InvalidValueType(tag))
        }
    }
}

/// Reading `n` more array items from `pos` after `acc`: all the items and how many bytes
/// the `n` took.
pub open spec fn parse_fast_items(s: Seq<u8>, pos: nat, n: nat, keys: Seq<Seq<char>>, acc: Seq<Json>)
    -> Result<(Seq<Json>, nat), FluxPackError>
    decreases remaining(s, pos), 1nat, n,
{
    if n == 0 {
        Ok((acc, 0))
    } else {
        match parse_fast_value(s, pos, keys) {
            Ok((v, c)) => match parse_fast_items(s, pos + c, (n - 1) as nat, keys, acc.push(v)) {
                Ok((items, used)) => Ok((items, c + used)),
                Err(e) => Err(e),
            },
            Err(e) => Err(e),
        }
    }
}

/// Reading `n` more `token, value` fields from `pos` into the object `acc`, each token
/// looked up in the key cache: the object and how many bytes the `n` took.
pub open spec fn parse_fast_fields(s: Seq<u8>, pos: nat, n: nat, keys: Seq<Seq<char>>, acc: Seq<(Seq<char>, Json)>)
    -> Result<(Seq<(Seq<char>, Json)>, nat), FluxPackError>
    decreases remaining(s, pos), 1nat, n,
{
    if n == 0 {
        Ok((acc, 0))
    } else {
        match varint_parse(s.skip(pos as int)) {
            Ok((t, c1)) => match cache_get(keys, token_of(t)) {
                Some(k) => match parse_fast_value(s, pos + c1, keys) {
                    Ok((v, c2)) => match parse_fast_fields(s, pos + c1 + c2, (n - 1) as nat, keys, obj_insert(acc, k, v)) {
                        Ok((fields, used)) => Ok((fields, c1 + c2 + used)),
                        Err(e) => Err(e),
                    },
                    Err(e) => Err(e),
                },
                None => Err(FluxPackError::UnknownToken(token_of(t))),
            },
            Err(e) => Err(e),
        }
    }
}

/// A DATA frame's body at `pos` with the fast decoder's grammar: the object and the bytes
/// it took.
pub open spec fn parse_fast_data(s: Seq<u8>, pos: nat, keys: Seq<Seq<char>>) -> Result<(Json, nat), FluxPackError> {
    match varint_parse(s.skip(pos as int)) {
        Ok((n, c)) => match parse_fast_fields(s, pos + c, n as nat, keys, Seq::empty()) {
            Ok((fields, used)) => Ok((Json::Obj(fields), c + used)),
            Err(e) => Err(e),
        },
        Err(e) => Err(e),
    }
}

/// Decoding frames from `pos` with the fast decoder: DEF frames store their keys, the
/// first DATA or columnar frame gives the result, an EOS frame or the end of the input
/// before one is a malformed stream. The result and the state afterwards.
pub open spec fn fast_decode_frames(s: Seq<u8>, pos: nat, m: FastModel) -> (Result<Json, FluxPackError>, FastModel)
    decreases remaining(s, pos),
{
    if pos >= s.len() {
        (Err(FluxPackError::MalformedFrame), m)
    } else {
        let tag = s[pos as int];
        if tag == 0x01 {
            match parse_def(s, pos + 1) {
                Ok((t, key, c)) => {
                    let (r, m2) = m.store_def(token_of(t), key);
                    match r {
                        Ok(_) => fast_decode_frames(s, pos + 1 + c, m2),
                        Err(e) => (Err(e), m2),
                    }
                },
                Err(e) => (Err(e), m),
            }
        } else if tag == 0x02 {
            match parse_fast_data(s, pos + 1, m.keys) {
                Ok((v, _c)) => (Ok(v), m),
                Err(e) => (Err(e), m),
            }
        } else if tag == 0x0D {
            match parse_columnar(s.skip((pos + 1) as int)) {
                Ok((rows, cols, _c)) => (Ok(rebuilt_array(rows, cols)), m),
                Err(e) => (Err(e), m),
            }
        } else if tag == 0xFF {
            (Err(FluxPackError::MalformedFrame), m)
        } else {
            (Err(FluxPackError::InvalidValueType(tag)), m)
        }
    }
}

/// Keys cached by token.
struct KeyCache {
    keys: Vec<String>,
}

impl View for KeyCache {
    type V = Seq<Seq<char>>;

    closed spec fn view(&self) -> Seq<Seq<char>> {
        strings_view(self.keys@)
    }
}

impl KeyCache {
    /// A cache holding the common ML keys under tokens 1 to 20; token 0 holds none.
    fn new() -> (c: Self)
        ensures
            c@ == common_keys(),
    {
        let mut keys: Vec<String> = Vec::with_capacity(256);
        let ghost before = keys@;
        let unused = String::new();
        keys.push(unused);
        proof {
            lemma_strings_view_push(before, unused);
        }
        let mut i: usize = 0;
        while i < COMMON_ML_KEY_COUNT
            invariant
                i <= COMMON_ML_KEY_COUNT,
                strings_view(keys@) =~= seq![Seq::<char>::empty()] + Seq::new(i as nat, |j: int| common_key(j)),
            decreases COMMON_ML_KEY_COUNT - i,
        {
            let ghost before = keys@;
            let owned = common_ml_key(i).to_owned();
            keys.push(owned);
            proof {
                lemma_strings_view_push(before, owned);
            }
            i = i + 1;
        }
        KeyCache { keys }
    }

    /// Caches `key` under `token` unless the token has a key already; returns the key
    /// cached there afterwards.
    fn get_or_insert(&mut self, token: u16, key: &str) -> (r: String)
        ensures
            final(self)@ == cache_put(old(self)@, token, key@),
            r@ == final(self)@[token as int],
            (token as int) < final(self)@.len(),
    {
        let idx = token as usize;
        if idx < self.keys.len() && !self.keys[idx].as_str().is_empty() {
            return self.keys[idx].clone();
        }
        let ghost k0 = self@;
        while self.keys.len() <= idx
            invariant
                k0.len() <= self@.len(),
                k0.len() <= idx + 1 ==> self@.len() <= idx + 1,
                k0.len() > idx ==> self@.len() == k0.len(),
                self@ == k0 + Seq::new((self@.len() - k0.len()) as nat, |i: int| Seq::<char>::empty()),
            decreases idx + 1 - self.keys.len(),
        {
            let ghost before = self.keys@;
            let e = String::new();
            self.keys.push(e);
            proof {
                lemma_strings_view_push(before, e);
            }
            assert(self@ =~= k0 + Seq::new((self@.len() - k0.len()) as nat, |i: int| Seq::<char>::empty()));
        }
        let ghost before = self.keys@;
        let owned = key.to_owned();
        self.keys.set(idx, owned);
        assert(self@ =~= strings_view(before).update(token as int, key@));
        proof {
            if idx < k0.len() {
                assert(strings_view(before) =~= k0);
            } else {
                assert(strings_view(before).len() == idx + 1);
            }
            assert(self@ =~= cache_put(k0, token, key@));
        }
        key.to_owned()
    }

    /// The key cached under `token`, if any.
    fn get(&self, token: u16) -> (r: Option<&str>)
        ensures
            match cache_get(self@, token) {
                Some(k) => r matches Some(x) && x@ == k,
                None => r is None,
            },
    {
        let idx = token as usize;
        if idx < self.keys.len() && !self.keys[idx].as_str().is_empty() {
            Some(self.keys[idx].as_str())
        } else {
            None
        }
    }
}

/// The fast FluxPack decoder.
pub struct FastDecoder {
    key_cache: KeyCache,
    key_to_id: AHashMap<String, u16>,
    next_token: u16,
}

impl View for FastDecoder {
    type V = FastModel;

    closed spec fn view(&self) -> FastModel {
        FastModel { keys: self.key_cache@, ids: key_index(self.key_to_id), next: self.next_token }
    }
}

/// The key-to-token map of a new fast decoder, and its next token.
fn common_ids() -> (r: (AHashMap<String, u16>, u16))
    ensures
        key_index(r.0) == predefined_index(20),
        r.1 == 21,
{
    let mut key_to_id = key_index_new();
    let mut next_token: u16 = 1;
    let mut i: usize = 0;
    while i < COMMON_ML_KEY_COUNT
        invariant
            i <= COMMON_ML_KEY_COUNT,
            next_token == i + 1,
            key_index(key_to_id) == predefined_index(i as nat),
        decreases COMMON_ML_KEY_COUNT - i,
    {
        key_index_insert(&mut key_to_id, common_ml_key(i).to_owned(), next_token);
        next_token = next_token + 1;
        i = i + 1;
    }
    (key_to_id, next_token)
}

impl FastDecoder {
    /// A new decoder: the common ML keys cached and mapped to their tokens.
    pub fn new() -> (d: Self)
        ensures
            d@ == fresh_fast_model(),
    {
        let key_cache = KeyCache::new();
        let (key_to_id, next_token) = common_ids();
        FastDecoder { key_cache, key_to_id, next_token }
    }

    /// Stores a DEF frame's key under its token.
    fn store_def(&mut self, token: u16, key: &str) -> (r: Result<(), FluxPackError>)
        ensures
            (r, final(self)@) == old(self)@.store_def(token, key@),
    {
        if token > MAX_TOKENS {
            return Err(FluxPackError::TableOverflow);
        }
        let cached = self.key_cache.get_or_insert(token, key);
        key_index_insert(&mut self.key_to_id, cached, token);
        if token >= self.next_token {
            self.next_token = token + 1;
        }
        Ok(())
    }

    /// The key cached under a token.
    fn resolve(&self, token: u16) -> (r: Option<&str>)
        ensures
            match cache_get(self@.keys, token) {
                Some(k) => r matches Some(x) && x@ == k,
                None => r is None,
            },
    {
        self.key_cache.get(token)
    }

    /// Decodes the value at `pos` with the fast grammar; returns it and the bytes it took.
    fn decode_value(&self, input: &[u8], pos: usize) -> (r: Result<(JsonValue, usize), FluxPackError>)
        requires
            pos <= input@.len(),
        ensures
            match r {
                Ok((v, c)) => parse_fast_value(input@, pos as nat, self@.keys) == Ok::<(Json, nat), FluxPackError>((v@, c as nat))
                    && pos + c <= input@.len(),
                Err(e) => parse_fast_value(input@, pos as nat, self@.keys) == Err::<(Json, nat), FluxPackError>(e),
            },
        decreases input@.len() - pos,
    {
        let ghost keys = self@.keys;
        let ilen = input.len();
        if pos >= ilen {
            return Err(FluxPackError::BufferOverrun);
        }
        let tag = input[pos];
        let body = pos + 1;
        if tag == 0x00 {
            Ok((JsonValue::Null, 1))
        } else if tag == 0x01 {
            Ok((JsonValue::Bool(true), 1))
        } else if tag == 0x02 {
            Ok((JsonValue::Bool(false), 1))
        } else if tag == 0x03 {
            match decode_signed_varint_at(input, body) {
                Ok((i, c)) => Ok((JsonValue::Number(JsonNumber::Int(i)), 1 + c)),
                Err(e) => Err(e),
            }
        } else if tag == 0x04 {
            match decode_varint_at(input, body) {
                Ok((u, c)) => Ok((JsonValue::Number(number_from_u64_exec(u)), 1 + c)),
                Err(e) => Err(e),
            }
        } else if tag == 0x05 {
            match decode_varint_at(input, body) {
                Ok((len, c)) => {
                    let start = body + c;
                    if len > (input.len() - start) as u64 {
                        return Err(FluxPackError::BufferOverrun);
                    }
                    let end = start + len as usize;
                    match utf8_str(input, start, end) {
                        Ok(st) => Ok((JsonValue::String(st.to_owned()), end - pos)),
                        Err(_) => Err(FluxPackError::InvalidUtf8),
                    }
                },
                Err(e) => Err(e),
            }
        } else if tag == 0x06 {
            if input.len() - body < 8 {
                return Err(FluxPackError::BufferOverrun);
            }
            let bits = read_u64_le(input, body);
            if f64_finite(bits) {
                Ok((JsonValue::Number(JsonNumber::Float(bits)), 9))
            } else {
                Ok((JsonValue::Null, 9))
            }
        } else if tag == 0x07 {
            if input.len() - body < 4 {
                return Err(FluxPackError::BufferOverrun);
            }
            let x = vstd::bytes::u32_from_le_bytes(vstd::slice::slice_subrange(input, body, body + 4));
            let bits = widen_f32_bits(x);
            if f64_finite(bits) {
                Ok((JsonValue::Number(JsonNumber::Float(bits)), 5))
            } else {
                Ok((JsonValue::Null, 5))
            }
        } else if tag == 0x08 {
            match decode_varint_at(input, body) {
                Ok((len, c)) => {
                    let start = body + c;
                    if len > (input.len() - start) as u64 {
                        return Err(FluxPackError::BufferOverrun);
                    }
                    let end = start + len as usize;
                    let hex = hex_string(vstd::slice::slice_subrange(input, start, end));
                    Ok((JsonValue::String(hex), end - pos))
                },
                Err(e) => Err(e),
            }
        } else if tag == 0x09 {
            match decode_varint_at(input, body) {
                Ok((n, c)) => {
                    let first = body + c;
                    let mut items: Vec<JsonValue> = Vec::new();
                    let mut cur = first;
                    let mut left = n;
                    assert(values_view(items@) =~= Seq::<Json>::empty());
                    while left > 0
                        invariant
                            pos < first <= cur <= input@.len(),
                            ilen == input@.len(),
                            first == pos + 1 + c,
                            keys == self@.keys,
                            parse_fast_value(input@, pos as nat, keys) == match parse_fast_items(input@, first as nat, n as nat, keys, Seq::empty()) {
                                Ok((all, used)) => Ok::<(Json, nat), FluxPackError>((Json::Arr(all), (1 + c + used) as nat)),
                                Err(e) => Err(e),
                            },
                            parse_fast_items(input@, first as nat, n as nat, keys, Seq::empty()) == match parse_fast_items(
                                input@, cur as nat, left as nat, keys, values_view(items@)) {
                                Ok((all, used)) => Ok::<(Seq<Json>, nat), FluxPackError>((all, (used + (cur - first)) as nat)),
                                Err(e) => Err(e),
                            },
                        decreases left,
                    {
                        match self.decode_value(input, cur) {
                            Ok((v, cc)) => {
                                proof {
                                    lemma_values_view_push(items@, v);
                                }
                                items.push(v);
                                cur = cur + cc;
                                left = left - 1;
                            },
                            Err(e) => {
                                assert(parse_fast_items(input@, cur as nat, left as nat, keys, values_view(items@)) == Err::<(Seq<Json>, nat), FluxPackError>(e));
                                return Err(e);
                            },
                        }
                    }
                    proof {
                        lemma_array_view(items);
                    }
                    Ok((JsonValue::Array(items), cur - pos))
                },
                Err(e) => Err(e),
            }
        } else if tag == 0x0A {
            match decode_varint_at(input, body) {
                Ok((n, c)) => {
                    let first = body + c;
                    let mut fields: Vec<(String, JsonValue)> = Vec::new();
                    let mut cur = first;
                    let mut left = n;
                    assert(fields_view(fields@) =~= Seq::<(Seq<char>, Json)>::empty());
                    while left > 0
                        invariant
                            pos < first <= cur <= input@.len(),
                            ilen == input@.len(),
                            first == pos + 1 + c,
                            keys == self@.keys,
                            parse_fast_value(input@, pos as nat, keys) == match parse_fast_fields(input@, first as nat, n as nat, keys, Seq::empty()) {
                                Ok((all, used)) => Ok::<(Json, nat), FluxPackError>((Json::Obj(all), (1 + c + used) as nat)),
                                Err(e) => Err(e),
                            },
                            parse_fast_fields(input@, first as nat, n as nat, keys, Seq::empty()) == match parse_fast_fields(
                                input@, cur as nat, left as nat, keys, fields_view(fields@)) {
                                Ok((all, used)) => Ok::<(Seq<(Seq<char>, Json)>, nat), FluxPackError>((all, (used + (cur - first)) as nat)),
                                Err(e) => Err(e),
                            },
                        decreases left,
                    {
                        let ghost fv = fields_view(fields@);
                        let (t, c1) = match decode_varint_at(input, cur) {
                            Ok(x) => x,
                            Err(e) => {
                                assert(parse_fast_fields(input@, cur as nat, left as nat, keys, fv) == Err::<(Seq<(Seq<char>, Json)>, nat), FluxPackError>(e));
                                return Err(e);
                            },
                        };
                        #[verifier::truncate]
                        let token = t as u16;
                        let key = match self.resolve(token) {
                            Some(k) => k.to_owned(),
                            None => {
                                assert(parse_fast_fields(input@, cur as nat, left as nat, keys, fv) == Err::<(Seq<(Seq<char>, Json)>, nat), FluxPackError>(FluxPackError::UnknownToken(token)));
                                return Err(FluxPackError::UnknownToken(token));
                            },
                        };
                        match self.decode_value(input, cur + c1) {
                            Ok((v, c2)) => {
                                object_insert(&mut fields, key, v);
                                cur = cur + c1 + c2;
                                left = left - 1;
                            },
                            Err(e) => {
                                assert(parse_fast_fields(input@, cur as nat, left as nat, keys, fv) == Err::<(Seq<(Seq<char>, Json)>, nat), FluxPackError>(e));
                                return Err(e);
                            },
                        }
                    }
                    proof {
                        lemma_object_view(fields);
                    }
                    Ok((JsonValue::Object(fields), cur - pos))
                },
                Err(e) => Err(e),
            }
        } else if tag == 0x0B {
            match decode_varint_at(input, body) {
                Ok((t, c)) => {
                    #[verifier::truncate]
                    let token = t as u16;
                    match self.resolve(token) {
                        Some(k) => Ok((JsonValue::String(k.to_owned()), 1 + c)),
                        None => Err(FluxPackError::UnknownToken(token)),
                    }
                },
                Err(e) => Err(e),
            }
        } else if tag == 0x0C {
            match decode_varint_at(input, body) {
                Ok((ts, c)) => Ok((JsonValue::String(timestamp_string(ts)), 1 + c)),
                Err(e) => Err(e),
            }
        } else if tag == 0x0D {
            match decode_varint_at(input, body) {
                Ok((len, c)) => {
                    let start = body + c;
                    if len > (input.len() - start) as u64 {
                        return Err(FluxPackError::BufferOverrun);
                    }
                    let end = start + len as usize;
                    let part = vstd::slice::slice_subrange(input, start, end);
                    match decode_columnar(part) {
                        Ok((rows, cols, _)) => Ok((reconstruct_array(rows, cols), end - pos)),
                        Err(e) => Err(e),
                    }
                },
                Err(e) => Err(e),
            }
        } else {
            Err(FluxPackError::InvalidValueType(tag))
        }
    }

    /// Decodes a DATA frame's body at `pos` with the fast grammar.
    fn decode_data_frame(&self, input: &[u8], pos: usize) -> (r: Result<JsonValue, FluxPackError>)
        requires
            pos <= input@.len(),
        ensures
            match parse_fast_data(input@, pos as nat, self@.keys) {
                Ok((v, _c)) => r matches Ok(x) && x@ == v,
                Err(e) => r == Err::<JsonValue, FluxPackError>(e),
            },
    {
        let ghost keys = self@.keys;
        let ilen = input.len();
        let (n, c) = match decode_varint_at(input, pos) {
            Ok(x) => x,
            Err(e) => {
                return Err(e);
            },
        };
        let first = pos + c;
        let mut fields: Vec<(String, JsonValue)> = Vec::new();
        let mut cur = first;
        let mut left = n;
        assert(fields_view(fields@) =~= Seq::<(Seq<char>, Json)>::empty());
        while left > 0
            invariant
                pos <= first <= cur <= input@.len(),
                ilen == input@.len(),
                first == pos + c,
                keys == self@.keys,
                parse_fast_data(input@, pos as nat, keys) == match parse_fast_fields(input@, first as nat, n as nat, keys, Seq::empty()) {
                    Ok((all, used)) => Ok::<(Json, nat), FluxPackError>((Json::Obj(all), (c + used) as nat)),
                    Err(e) => Err(e),
                },
                parse_fast_fields(input@, first as nat, n as nat, keys, Seq::empty()) == match parse_fast_fields(
                    input@, cur as nat, left as nat, keys, fields_view(fields@)) {
                    Ok((all, used)) => Ok::<(Seq<(Seq<char>, Json)>, nat), FluxPackError>((all, (used + (cur - first)) as nat)),
                    Err(e) => Err(e),
                },
            decreases left,
        {
            let ghost fv = fields_view(fields@);
            let (t, c1) = match decode_varint_at(input, cur) {
                Ok(x) => x,
                Err(e) => {
                    assert(parse_fast_fields(input@, cur as nat, left as nat, keys, fv) == Err::<(Seq<(Seq<char>, Json)>, nat), FluxPackError>(e));
                    return Err(e);
                },
            };
            #[verifier::truncate]
            let token = t as u16;
            let key = match self.resolve(token) {
                Some(k) => k.to_owned(),
                None => {
                    assert(parse_fast_fields(input@, cur as nat, left as nat, keys, fv) == Err::<(Seq<(Seq<char>, Json)>, nat), FluxPackError>(FluxPackError::UnknownToken(token)));
                    return Err(FluxPackError::UnknownToken(token));
                },
            };
            match self.decode_value(input, cur + c1) {
                Ok((v, c2)) => {
                    object_insert(&mut fields, key, v);
                    cur = cur + c1 + c2;
                    left = left - 1;
                },
                Err(e) => {
                    assert(parse_fast_fields(input@, cur as nat, left as nat, keys, fv) == Err::<(Seq<(Seq<char>, Json)>, nat), FluxPackError>(e));
                    return Err(e);
                },
            }
        }
        proof {
            lemma_object_view(fields);
        }
        Ok(JsonValue::Object(fields))
    }

    /// Decodes a columnar frame's body: the array its columns rebuild.
    fn decode_columnar_frame(&self, input: &[u8]) -> (r: Result<JsonValue, FluxPackError>)
        ensures
            match parse_columnar(input@) {
                Ok((rows, cols, _c)) => r matches Ok(x) && x@ == rebuilt_array(rows, cols),
                Err(e) => r == Err::<JsonValue, FluxPackError>(e),
            },
    {
        match decode_columnar(input) {
            Ok((rows, cols, _)) => Ok(reconstruct_array(rows, cols)),
            Err(e) => Err(e),
        }
    }

    /// Decode a FluxPack stream into a JSON value: an inline payload when it starts with
    /// `INLINE_MAGIC` (its message, on failure, in `ColumnarError`), else DEF frames and then
    /// one DATA or columnar frame.
    pub fn decode(&mut self, input: &[u8]) -> (r: Result<JsonValue, FluxPackError>)
        ensures
            if input@.len() > 0 && input@[0] == INLINE_MAGIC {
                &&& final(self)@ == old(self)@
                &&& match r {
                    Ok(v) => parse_inline(input@) matches Ok((fields, _used)) && v@ == Json::Obj(fields),
                    Err(e) => parse_inline(input@) matches Err(f) && e matches FluxPackError::ColumnarError(m)
                        && fault_text(f, m@),
                }
            } else {
                let (sr, st) = fast_decode_frames(input@, 0, old(self)@);
                &&& final(self)@ == st
                &&& match r {
                    Ok(v) => sr == Ok::<Json, FluxPackError>(v@),
                    Err(e) => sr == Err::<Json, FluxPackError>(e),
                }
            },
    {
        let ilen = input.len();
        if ilen > 0 && input[0] == INLINE_MAGIC {
            return match decode_inline(input) {
                Ok((obj, _)) => {
                    proof {
                        lemma_object_view(obj);
                    }
                    Ok(JsonValue::Object(obj))
                },
                Err(m) => Err(FluxPackError::ColumnarError(m)),
            };
        }
        let mut cursor: usize = 0;
        while cursor < ilen
            invariant
                ilen == input@.len(),
                cursor <= ilen,
                !(ilen > 0 && input@[0] == INLINE_MAGIC),
                fast_decode_frames(input@, 0, old(self)@) == fast_decode_frames(input@, cursor as nat, self@),
            decreases ilen - cursor,
        {
            let frame_type = input[cursor];
            cursor = cursor + 1;
            if frame_type == 0x01 {
                let (t, key, consumed) = match read_def_at(input, cursor) {
                    Ok(x) => x,
                    Err(e) => {
                        return Err(e);
                    },
                };
                #[verifier::truncate]
                let token = t as u16;
                match self.store_def(token, key) {
                    Ok(_) => {},
                    Err(e) => {
                        return Err(e);
                    },
                }
                cursor = cursor + consumed;
            } else if frame_type == 0x02 {
                return self.decode_data_frame(input, cursor);
            } else if frame_type == 0x0D {
                let rest = vstd::slice::slice_subrange(input, cursor, ilen);
                assert(rest@ =~= input@.skip(cursor as int));
                return self.decode_columnar_frame(rest);
            } else if frame_type == 0xFF {
                return Err(FluxPackError::MalformedFrame);
            } else {
                return Err(FluxPackError::InvalidValueType(frame_type));
            }
        }
        Err(FluxPackError::MalformedFrame)
    }

    /// Reset the decoder to its state when new.
    pub fn reset(&mut self)
        ensures
            final(self)@ == fresh_fast_model(),
    {
        self.key_cache = KeyCache::new();
        let (key_to_id, next_token) = common_ids();
        self.key_to_id = key_to_id;
        self.next_token = next_token;
    }
}

impl Default for FastDecoder {
    fn default() -> (d: Self)
        ensures
            d@ == fresh_fast_model(),
    {
        Self::new()
    }
}

} // verus!
