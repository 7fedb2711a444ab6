//! Columnar encoding of arrays of objects that share their keys: one column per key.
//!
//! Format: `col_count(varint) | for each column: key_len(varint) | key_bytes | col_type(byte) |
//! row_count(varint) | values`.
use vstd::prelude::*;
use crate::error::FluxPackError;
use crate::json::{Json, JsonNumber, JsonValue, values_view, fields_view, lemma_array_view, lemma_object_view,
    lemma_values_view_push, clone_json};
use crate::wire::{find_key_from, obj_get, object_get, str_bytes, push_bytes, f64_bits_finite, number_from_u64,
    number_from_u64_exec, remaining, obj_insert, object_insert, read_u64_le};
use crate::outside::utf8_str;
use vstd::utf8::{valid_utf8, decode_utf8};
use crate::varint::{encode_varint, encode_signed_varint, varint_bytes, signed_varint_bytes, decode_varint_at,
    decode_signed_varint_at, varint_parse, signed_varint_parse};
use crate::float_bits::{i64_to_f64, u64_to_f64, narrow_f64, widen_f32, f32_bits_finite, i64_to_f64_bits,
    u64_to_f64_bits, narrow_f64_bits, widen_f32_bits};
use crate::tensor::{le_bytes32, le_bytes64, push_le_bytes32, push_le_bytes64};
use vstd::bytes::{spec_u64_to_le_bytes, spec_u32_to_le_bytes, spec_u64_from_le_bytes, spec_u32_from_le_bytes};

verus! {

/// Minimum array length to trigger columnar encoding.
pub const COLUMNAR_THRESHOLD: usize = 3;

/// The type of a column.
#[derive(Debug, Clone, Copy, PartialEq, Eq, Structural)]
pub enum ColType {
    Null,
    Bool,
    Int,
    UInt,
    Float64,
    Float32,
    String,
    Mixed,
}

/// The tag byte of a column type.
pub open spec fn col_tag(c: ColType) -> u8 {
    match c {
        ColType::Null => 0x00,
        ColType::Bool => 0x01,
        ColType::Int => 0x02,
        ColType::UInt => 0x03,
        ColType::Float64 => 0x04,
        ColType::Float32 => 0x05,
        ColType::String => 0x06,
        ColType::Mixed => 0xFF,
    }
}

/// The column type a tag byte names.
pub open spec fn col_of_tag(tag: u8) -> Option<ColType> {
    if tag == 0x00 {
        Some(ColType::Null)
    } else if tag == 0x01 {
        Some(ColType::Bool)
    } else if tag == 0x02 {
        Some(ColType::Int)
    } else if tag == 0x03 {
        Some(ColType::UInt)
    } else if tag == 0x04 {
        Some(ColType::Float64)
    } else if tag == 0x05 {
        Some(ColType::Float32)
    } else if tag == 0x06 {
        Some(ColType::String)
    } else if tag == 0xFF {
        Some(ColType::Mixed)
    } else {
        None
    }
}

impl ColType {
    pub fn tag(self) -> (r: u8)
        ensures
            r == col_tag(self),
            col_of_tag(r) == Some(self),
    {
        match self {
            ColType::Null => 0x00,
            ColType::Bool => 0x01,
            ColType::Int => 0x02,
            ColType::UInt => 0x03,
            ColType::Float64 => 0x04,
            ColType::Float32 => 0x05,
            ColType::String => 0x06,
            ColType::Mixed => 0xFF,
        }
    }

    pub fn from_tag(tag: u8) -> (r: Option<Self>)
        ensures
            r == col_of_tag(tag),
    {
        match tag {
            0x00 => Some(ColType::Null),
            0x01 => Some(ColType::Bool),
            0x02 => Some(ColType::Int),
            0x03 => Some(ColType::UInt),
            0x04 => Some(ColType::Float64),
            0x05 => Some(ColType::Float32),
            0x06 => Some(ColType::String),
            0xFF => Some(ColType::Mixed),
            _ => None,
        }
    }
}

/// The kinds among the first `n` values.
pub open spec fn kinds(vals: Seq<Json>, n: nat) -> (bool, bool, bool, bool, bool, bool)
    decreases n,
{
    if n == 0 || n > vals.len() {
        (false, false, false, false, false, false)
    } else {
        let (a, b, c, d, e, f) = kinds(vals, (n - 1) as nat);
        match vals[n - 1] {
            Json::Null => (true, b, c, d, e, f),
            Json::Bool(_) => (a, true, c, d, e, f),
            Json::Num(JsonNumber::Int(i)) => if i < 0 { (a, b, true, d, e, f) } else { (a, b, c, true, e, f) },
            Json::Num(JsonNumber::UInt(_)) => (a, b, c, true, e, f),
            Json::Num(JsonNumber::Float(_)) => (a, b, c, d, true, f),
            Json::Str(_) => (a, b, c, d, e, true),
            _ => (a, b, c, d, e, f),
        }
    }
}

/// Whether some value is an array or an object.
pub open spec fn has_nested(vals: Seq<Json>) -> bool {
    exists|i: int| 0 <= i < vals.len() && ((#[trigger] vals[i]) is Arr || vals[i] is Obj)
}

/// The dominant type of a column's values.
pub open spec fn classify(vals: Seq<Json>) -> ColType {
    if vals.len() == 0 {
        ColType::Null
    } else if has_nested(vals) {
        ColType::Mixed
    } else {
        let (null, boolean, neg_int, uint, float, string) = kinds(vals, vals.len());
        let count = (if null { 1int } else { 0 }) + (if boolean { 1int } else { 0 }) + (if neg_int { 1int } else { 0 })
            + (if uint { 1int } else { 0 }) + (if float { 1int } else { 0 }) + (if string { 1int } else { 0 });
        if count == 1 {
            if boolean {
                ColType::Bool
            } else if neg_int {
                ColType::Int
            } else if uint {
                ColType::UInt
            } else if float {
                ColType::Float64
            } else if string {
                ColType::String
            } else {
                ColType::Null
            }
        } else if !string && !boolean && (neg_int || uint || float) {
            ColType::Float64
        } else if boolean && null && !neg_int && !uint && !float && !string {
            ColType::Bool
        } else {
            ColType::Mixed
        }
    }
}

/// Classify a column by detecting the dominant type.
fn classify_column(values: &Vec<&JsonValue>) -> (r: ColType)
    ensures
        r == classify(Seq::new(values@.len(), |i: int| values@[i]@)),
{
    let ghost vals = Seq::new(values@.len(), |i: int| values@[i]@);
    if values.len() == 0 {
        return ColType::Null;
    }
    let mut null = false;
    let mut boolean = false;
    let mut neg_int = false;
    let mut uint = false;
    let mut float = false;
    let mut string = false;
    let mut i: usize = 0;
    while i < values.len()
        invariant
            vals == Seq::new(values@.len(), |i: int| values@[i]@),
            i <= values@.len(),
            kinds(vals, i as nat) == (null, boolean, neg_int, uint, float, string),
            forall|j: int| 0 <= j < i ==> !((#[trigger] vals[j]) is Arr || vals[j] is Obj),
        decreases values.len() - i,
    {
        assert(vals[i as int] == values@[i as int]@);
        match values[i] {
            JsonValue::Null => {
                null = true;
            },
            JsonValue::Bool(_) => {
                boolean = true;
            },
            JsonValue::Number(JsonNumber::Int(x)) => {
                if *x < 0 {
                    neg_int = true;
                } else {
                    uint = true;
                }
            },
            JsonValue::Number(JsonNumber::UInt(_)) => {
                uint = true;
            },
            JsonValue::Number(JsonNumber::Float(_)) => {
                float = true;
            },
            JsonValue::String(_) => {
                string = true;
            },
            _ => {
                assert(vals[i as int] is Arr || vals[i as int] is Obj);
                return ColType::Mixed;
            },
        }
        i = i + 1;
    }
    assert(!has_nested(vals));
    let count: usize = (if null { 1 } else { 0 }) + (if boolean { 1 } else { 0 }) + (if neg_int { 1 } else { 0 })
        + (if uint { 1 } else { 0 }) + (if float { 1 } else { 0 }) + (if string { 1 } else { 0 });
    if count == 1 {
        if boolean {
            return ColType::Bool;
        }
        if neg_int {
            return ColType::Int;
        }
        if uint {
            return ColType::UInt;
        }
        if float {
            return ColType::Float64;
        }
        if string {
            return ColType::String;
        }
        return ColType::Null;
    }
    if !string && !boolean && (neg_int || uint || float) {
        return ColType::Float64;
    }
    if boolean && null && !neg_int && !uint && !float && !string {
        return ColType::Bool;
    }
    ColType::Mixed
}

/// The values of the key `k` among the rows, in order (rows that are not objects, or lack
/// the key, give none).
pub open spec fn column_of(rows: Seq<Json>, k: Seq<char>, n: nat) -> Seq<Json>
    decreases n,
{
    if n == 0 || n > rows.len() {
        Seq::empty()
    } else {
        column_of(rows, k, (n - 1) as nat) + match rows[n - 1] {
            Json::Obj(fields) => match obj_get(fields, k) {
                Some(v) => seq![v],
                None => Seq::empty(),
            },
            _ => Seq::empty(),
        }
    }
}

/// An object with exactly as many fields as `keys`, each key of `keys` among them.
pub open spec fn same_keys(fields: Seq<(Seq<char>, Json)>, keys: Seq<Seq<char>>) -> bool {
    fields.len() == keys.len() && forall|j: int| 0 <= j < keys.len() ==> find_key_from(fields, #[trigger] keys[j], 0) is Some
}

/// The keys of an object, in order.
pub open spec fn keys_of(fields: Seq<(Seq<char>, Json)>) -> Seq<Seq<char>> {
    Seq::new(fields.len(), |j: int| fields[j].0)
}

/// The columns of an array of at least 3 objects that all have the first one's keys:
/// each key of the first object with the type of its column.
pub open spec fn columns_of(rows: Seq<Json>) -> Option<Seq<(Seq<char>, ColType)>> {
    if rows.len() < COLUMNAR_THRESHOLD {
        None
    } else {
        match rows[0] {
            Json::Obj(first) => {
                let keys = keys_of(first);
                if keys.len() == 0 || !(forall|i: int| 1 <= i < rows.len() ==> (#[trigger] rows[i] matches Json::Obj(f) && same_keys(f, keys))) {
                    None
                } else {
                    Some(Seq::new(keys.len(), |j: int| (keys[j], classify(column_of(rows, keys[j], rows.len())))))
                }
            },
            _ => None,
        }
    }
}

/// The columns as `(key, type)` pairs of mathematical values.
pub open spec fn columns_view(c: Seq<(String, ColType)>) -> Seq<(Seq<char>, ColType)> {
    Seq::new(c.len(), |j: int| (c[j].0@, c[j].1))
}

/// The values of the key `k` among the rows.
fn collect_column<'a>(arr: &'a [JsonValue], k: &String) -> (r: Vec<&'a JsonValue>)
    ensures
        Seq::new(r@.len(), |i: int| r@[i]@) == column_of(values_view(arr@), k@, arr@.len()),
{
    let ghost rows = values_view(arr@);
    let mut out: Vec<&JsonValue> = Vec::new();
    let mut i: usize = 0;
    while i < arr.len()
        invariant
            rows == values_view(arr@),
            i <= arr@.len(),
            Seq::new(out@.len(), |j: int| out@[j]@) == column_of(rows, k@, i as nat),
        decreases arr.len() - i,
    {
        let ghost before = out@;
        match &arr[i] {
            JsonValue::Object(o) => {
                proof {
                    lemma_object_view(*o);
                }
                match object_get(o, k) {
                    Some(v) => {
                        out.push(v);
                    },
                    None => {},
                }
            },
            _ => {},
        }
        i = i + 1;
        assert(Seq::new(out@.len(), |j: int| out@[j]@) =~= column_of(rows, k@, i as nat));
    }
    out
}

/// Attempts to columnarize an array of objects: `Some` of each column's key and type when
/// the array has at least 3 elements, all objects with the same keys.
pub fn try_columnarize(arr: &[JsonValue]) -> (r: Option<Vec<(String, ColType)>>)
    ensures
        match columns_of(values_view(arr@)) {
            Some(cols) => r matches Some(v) && columns_view(v@) == cols,
            None => r is None,
        },
{
    let ghost rows = values_view(arr@);
    if arr.len() < COLUMNAR_THRESHOLD {
        return None;
    }
    let first = match &arr[0] {
        JsonValue::Object(o) => o,
        _ => {
            return None;
        },
    };
    proof {
        lemma_object_view(*first);
    }
    let ghost keys = keys_of(fields_view(first@));
    assert(rows[0] == Json::Obj(fields_view(first@)));
    if first.len() == 0 {
        return None;
    }
    let mut i: usize = 1;
    while i < arr.len()
        invariant
            rows == values_view(arr@),
            rows[0] == Json::Obj(fields_view(first@)),
            keys == keys_of(fields_view(first@)),
            keys.len() == first@.len(),
            arr@.len() >= COLUMNAR_THRESHOLD,
            first@.len() > 0,
            1 <= i <= arr@.len(),
            forall|j: int| 1 <= j < i ==> (#[trigger] rows[j] matches Json::Obj(f) && same_keys(f, keys)),
        decreases arr.len() - i,
    {
        match &arr[i] {
            JsonValue::Object(obj) => {
                proof {
                    lemma_object_view(*obj);
                }
                let ghost fv = fields_view(obj@);
                assert(rows[i as int] == Json::Obj(fv));
                if obj.len() != first.len() {
                    return None;
                }
                let mut j: usize = 0;
                while j < first.len()
                    invariant
                        fv == fields_view(obj@),
                        keys == keys_of(fields_view(first@)),
                        keys.len() == first@.len(),
                        rows == values_view(arr@),
                        rows[i as int] == Json::Obj(fv),
                        rows[0] == Json::Obj(fields_view(first@)),
                        arr@.len() >= COLUMNAR_THRESHOLD,
                        first@.len() > 0,
                        1 <= i < arr@.len(),
                        j <= first@.len(),
                        forall|m: int| 0 <= m < j ==> find_key_from(fv, #[trigger] keys[m], 0) is Some,
                    decreases first.len() - j,
                {
                    assert(keys[j as int] == first@[j as int].0@);
                    match object_get(obj, &first[j].0) {
                        Some(_) => {},
                        None => {
                            assert(!same_keys(fv, keys));
                            assert(!(rows[i as int] matches Json::Obj(f) && same_keys(f, keys)));
                            return None;
                        },
                    }
                    j = j + 1;
                }
                assert(same_keys(fv, keys));
            },
            _ => {
                return None;
            },
        }
        i = i + 1;
    }
    let mut columns: Vec<(String, ColType)> = Vec::new();
    let mut j: usize = 0;
    while j < first.len()
        invariant
            rows == values_view(arr@),
            keys == keys_of(fields_view(first@)),
            j <= first@.len(),
            columns_view(columns@) == Seq::new(j as nat, |m: int| (keys[m], classify(column_of(rows, keys[m], rows.len())))),
        decreases first.len() - j,
    {
        let values = collect_column(arr, &first[j].0);
        let col_type = classify_column(&values);
        let ghost before = columns@;
        let key = first[j].0.clone();
        assert(key@ == keys[j as int]);
        columns.push((key, col_type));
        assert(columns_view(columns@) =~= columns_view(before).push((keys[j as int], col_type)));
        j = j + 1;
        assert(columns_view(columns@) =~= Seq::new(j as nat, |m: int| (keys[m], classify(column_of(rows, keys[m], rows.len())))));
    }
    Some(columns)
}

/// The bits of the double a JSON number converts to.
pub open spec fn number_f64_bits(n: JsonNumber) -> u64 {
    match n {
        JsonNumber::Int(i) => i64_to_f64(i),
        JsonNumber::UInt(u) => u64_to_f64(u),
        JsonNumber::Float(b) => b,
    }
}

/// The bits of the double a JSON number converts to.
pub fn number_to_f64_bits(n: JsonNumber) -> (r: u64)
    ensures
        r == number_f64_bits(n),
{
    match n {
        JsonNumber::Int(i) => i64_to_f64_bits(i),
        JsonNumber::UInt(u) => u64_to_f64_bits(u),
        JsonNumber::Float(b) => b,
    }
}

/// A value as an `i64`, 0 when it is not one.
pub open spec fn as_i64_or_zero(v: Json) -> i64 {
    match v {
        Json::Num(JsonNumber::Int(i)) => i,
        _ => 0,
    }
}

/// A value as a `u64`, 0 when it is not one.
pub open spec fn as_u64_or_zero(v: Json) -> u64 {
    match v {
        Json::Num(JsonNumber::Int(i)) => if i >= 0 { i as u64 } else { 0 },
        Json::Num(JsonNumber::UInt(u)) => u,
        _ => 0,
    }
}

/// The bits of the quiet NaN double that marks a missing value.
pub const NAN64: u64 = 0x7FF8_0000_0000_0000;

/// The bits of the quiet NaN single that marks a missing value.
pub const NAN32: u32 = 0x7FC0_0000;

/// A value of a mixed column: its own tag, then its bytes.
pub open spec fn mixed_bytes(v: Json) -> Seq<u8> {
    match v {
        Json::Null => seq![0x00u8],
        Json::Bool(b) => if b { seq![0x01u8] } else { seq![0x02u8] },
        Json::Num(JsonNumber::Int(i)) => seq![0x03u8] + signed_varint_bytes(i),
        Json::Num(n) => seq![0x04u8] + spec_u64_to_le_bytes(number_f64_bits(n)),
        Json::Str(s) => seq![0x05u8] + str_bytes(s),
        _ => seq![0x00u8],
    }
}

/// The bytes a row adds to a column of type `t` (not `Bool`) for the key `k`.
pub open spec fn cell_bytes(t: ColType, row: Json, k: Seq<char>) -> Seq<u8> {
    match row {
        Json::Obj(fields) => {
            let cell = obj_get(fields, k);
            match t {
                ColType::Int => match cell {
                    Some(v) => signed_varint_bytes(as_i64_or_zero(v)),
                    None => Seq::empty(),
                },
                ColType::UInt => match cell {
                    Some(v) => varint_bytes(as_u64_or_zero(v)),
                    None => Seq::empty(),
                },
                ColType::Float64 => match cell {
                    Some(Json::Num(n)) => spec_u64_to_le_bytes(number_f64_bits(n)),
                    Some(Json::Null) => spec_u64_to_le_bytes(NAN64),
                    None => spec_u64_to_le_bytes(NAN64),
                    Some(_) => spec_u64_to_le_bytes(0),
                },
                ColType::Float32 => match cell {
                    Some(Json::Num(n)) => spec_u32_to_le_bytes(narrow_f64(number_f64_bits(n))),
                    Some(Json::Null) => spec_u32_to_le_bytes(NAN32),
                    None => spec_u32_to_le_bytes(NAN32),
                    Some(_) => spec_u32_to_le_bytes(0),
                },
                ColType::String => match cell {
                    Some(Json::Str(s)) => str_bytes(s),
                    _ => varint_bytes(0),
                },
                ColType::Mixed => match cell {
                    Some(v) => mixed_bytes(v),
                    None => Seq::empty(),
                },
                _ => Seq::empty(),
            }
        },
        _ => Seq::empty(),
    }
}

/// The cells of the first `n` rows, one after the other.
pub open spec fn cells_bytes(t: ColType, rows: Seq<Json>, k: Seq<char>, n: nat) -> Seq<u8>
    decreases n,
{
    if n == 0 || n > rows.len() {
        Seq::empty()
    } else {
        cells_bytes(t, rows, k, (n - 1) as nat) + cell_bytes(t, rows[n - 1], k)
    }
}

/// Whether row `i` is an object whose value for `k` is `true`.
pub open spec fn row_flag(rows: Seq<Json>, k: Seq<char>, i: int) -> bool {
    rows[i] matches Json::Obj(fields) && obj_get(fields, k) == Some(Json::Bool(true))
}

/// The byte holding the flags of rows `8g` to `8g + j - 1`, row `8g + b` at bit `b`.
pub open spec fn flag_byte(rows: Seq<Json>, k: Seq<char>, g: int, j: nat) -> nat
    decreases j,
{
    if j == 0 {
        0
    } else {
        flag_byte(rows, k, g, (j - 1) as nat) + if 8 * g + j - 1 < rows.len() && row_flag(rows, k, 8 * g + j - 1) {
            ((1u8 << ((j - 1) as u8)) as nat)
        } else {
            0
        }
    }
}

/// The flags of all rows packed eight to a byte, the first row at the lowest bit.
pub open spec fn packed_flags(rows: Seq<Json>, k: Seq<char>) -> Seq<u8> {
    Seq::new((rows.len() + 7) / 8, |g: int| flag_byte(rows, k, g, 8) as u8)
}

/// The values of the key `k` as a column of type `t`.
pub open spec fn column_bytes(t: ColType, rows: Seq<Json>, k: Seq<char>) -> Seq<u8> {
    if t == ColType::Bool {
        packed_flags(rows, k)
    } else {
        cells_bytes(t, rows, k, rows.len())
    }
}

/// The columns from the first to the `n`-th, each with its header.
pub open spec fn columns_bytes(rows: Seq<Json>, cols: Seq<(Seq<char>, ColType)>, n: nat) -> Seq<u8>
    decreases n,
{
    if n == 0 || n > cols.len() {
        Seq::empty()
    } else {
        let (k, t) = cols[n - 1];
        columns_bytes(rows, cols, (n - 1) as nat) + str_bytes(k) + seq![col_tag(t)]
            + varint_bytes(rows.len() as u64) + column_bytes(t, rows, k)
    }
}

/// A columnar array on the wire.
pub open spec fn columnar_bytes(rows: Seq<Json>, cols: Seq<(Seq<char>, ColType)>) -> Seq<u8> {
    varint_bytes(cols.len() as u64) + columns_bytes(rows, cols, cols.len())
}

/// Appends the UTF-8 bytes of a string after their length.
fn push_str(s: &String, buffer: &mut Vec<u8>)
    ensures
        final(buffer)@ == old(buffer)@ + str_bytes(s@),
{
    let bytes = s.as_str().as_bytes();
    encode_varint(bytes.len() as u64, buffer);
    push_bytes(buffer, bytes);
}

/// Appends a value of a mixed column.
fn encode_mixed_value(v: &JsonValue, buffer: &mut Vec<u8>)
    ensures
        final(buffer)@ == old(buffer)@ + mixed_bytes(v@),
{
    match v {
        JsonValue::Null => {
            buffer.push(0x00);
        },
        JsonValue::Bool(b) => {
            buffer.push(if *b { 0x01 } else { 0x02 });
        },
        JsonValue::Number(JsonNumber::Int(i)) => {
            buffer.push(0x03);
            encode_signed_varint(*i, buffer);
        },
        JsonValue::Number(n) => {
            buffer.push(0x04);
            let b = vstd::bytes::u64_to_le_bytes(number_to_f64_bits(*n));
            push_bytes(buffer, b.as_slice());
        },
        JsonValue::String(s) => {
            buffer.push(0x05);
            push_str(s, buffer);
        },
        _ => {
            buffer.push(0x00);
        },
    }
    assert(buffer@ =~= old(buffer)@ + mixed_bytes(v@));
}

/// Appends the bytes a row adds to a column (not `Bool`).
fn encode_cell(row: &JsonValue, key: &String, col_type: ColType, buffer: &mut Vec<u8>)
    requires
        col_type != ColType::Bool,
    ensures
        final(buffer)@ == old(buffer)@ + cell_bytes(col_type, row@, key@),
{
    let obj = match row {
        JsonValue::Object(o) => o,
        _ => {
            assert(buffer@ =~= old(buffer)@ + cell_bytes(col_type, row@, key@));
            return;
        },
    };
    proof {
        lemma_object_view(*obj);
    }
    let cell = object_get(obj, key);
    match col_type {
        ColType::Null => {},
        ColType::Bool => {},
        ColType::Int => {
            match cell {
                Some(v) => {
                    let i: i64 = match v {
                        JsonValue::Number(JsonNumber::Int(i)) => *i,
                        _ => 0,
                    };
                    encode_signed_varint(i, buffer);
                },
                None => {},
            }
        },
        ColType::UInt => {
            match cell {
                Some(v) => {
                    let u: u64 = match v {
                        JsonValue::Number(JsonNumber::Int(i)) => if *i >= 0 { *i as u64 } else { 0 },
                        JsonValue::Number(JsonNumber::UInt(u)) => *u,
                        _ => 0,
                    };
                    encode_varint(u, buffer);
                },
                None => {},
            }
        },
        ColType::Float64 => {
            let bits: u64 = match cell {
                Some(JsonValue::Number(n)) => number_to_f64_bits(*n),
                Some(JsonValue::Null) => NAN64,
                None => NAN64,
                Some(_) => 0,
            };
            let b = vstd::bytes::u64_to_le_bytes(bits);
            push_bytes(buffer, b.as_slice());
        },
        ColType::Float32 => {
            let bits: u32 = match cell {
                Some(JsonValue::Number(n)) => narrow_f64_bits(number_to_f64_bits(*n)),
                Some(JsonValue::Null) => NAN32,
                None => NAN32,
                Some(_) => 0,
            };
            let b = vstd::bytes::u32_to_le_bytes(bits);
            push_bytes(buffer, b.as_slice());
        },
        ColType::String => {
            match cell {
                Some(JsonValue::String(s)) => {
                    push_str(s, buffer);
                },
                _ => {
                    encode_varint(0, buffer);
                },
            }
        },
        ColType::Mixed => {
            match cell {
                Some(v) => {
                    encode_mixed_value(v, buffer);
                },
                None => {},
            }
        },
    }
    assert(buffer@ =~= old(buffer)@ + cell_bytes(col_type, row@, key@));
}

/// Setting bit `m` of a byte whose bits from `m` up are clear: the same as adding it, the
/// result still below bit `m + 1`, and bit `b` set in it exactly when `b` is `m` or was set.
pub proof fn lemma_flag_bits(x: u8, m: u8, b: u8)
    by (bit_vector)
    ensures
        0u8 < (1u8 << 0u8),
        x < (1u8 << m) && m < 8 ==> (x | (1u8 << m)) == x + (1u8 << m),
        x < (1u8 << m) && m < 7 ==> x + (1u8 << m) < (1u8 << ((m + 1) as u8)) && x < (1u8 << ((m + 1) as u8)),
        x < (1u8 << m) && m < 8 && b < 8 ==> ((((x | (1u8 << m)) >> b) & 1 == 1) == (b == m || (x >> b) & 1 == 1)),
        x < (1u8 << m) && m < 8 && m <= b && b < 8 ==> (x >> b) & 1 == 0,
{
}

/// The exponent and fraction fields of a double's bits.
pub proof fn lemma_f64_fields(b: u64)
    by (bit_vector)
    ensures
        (b >> 52u64) & 0x7FF == (b / 0x10_0000_0000_0000) % 0x800,
        b & 0xF_FFFF_FFFF_FFFF == b % 0x10_0000_0000_0000,
{
}

/// Bits at or above the end of the rows stay clear.
proof fn lemma_flag_byte_tail(rows: Seq<Json>, k: Seq<char>, g: int, j: nat)
    requires
        8 * g + j >= rows.len(),
        j <= 8,
    ensures
        flag_byte(rows, k, g, 8) == flag_byte(rows, k, g, j),
    decreases 8 - j,
{
    if j < 8 {
        lemma_flag_byte_tail(rows, k, g, j + 1);
    }
}

/// Appends the values of the key `key` as a column of type `col_type`.
fn encode_column_values(arr: &[JsonValue], key: &String, col_type: ColType, buffer: &mut Vec<u8>)
    ensures
        final(buffer)@ == old(buffer)@ + column_bytes(col_type, values_view(arr@), key@),
{
    let ghost rows = values_view(arr@);
    if col_type == ColType::Bool {
        let mut byte: u8 = 0;
        let mut bit_idx: u8 = 0;
        let mut i: usize = 0;
        let ghost start = buffer@;
        proof {
            lemma_flag_bits(0, 0, 0);
        }
        while i < arr.len()
            invariant
                rows == values_view(arr@),
                i <= arr@.len(),
                bit_idx < 8,
                bit_idx as int == i % 8,
                byte as nat == flag_byte(rows, key@, (i / 8) as int, bit_idx as nat),
                byte < (1u8 << bit_idx),
                start == old(buffer)@,
                buffer@ == start + Seq::new((i / 8) as nat, |g: int| flag_byte(rows, key@, g, 8) as u8),
            decreases arr.len() - i,
        {
            let flag = match &arr[i] {
                JsonValue::Object(o) => {
                    proof {
                        lemma_object_view(*o);
                    }
                    match object_get(o, key) {
                        Some(JsonValue::Bool(true)) => true,
                        _ => false,
                    }
                },
                _ => false,
            };
            assert(flag == row_flag(rows, key@, i as int));
            let ghost g: int = (i / 8) as int;
            assert(8 * g + bit_idx == i);
            let ghost prev = byte;
            proof {
                lemma_flag_bits(byte, bit_idx, 0);
            }
            if flag {
                byte = byte | (1u8 << bit_idx);
            }
            assert(byte as nat == flag_byte(rows, key@, g, (bit_idx + 1) as nat));
            bit_idx = bit_idx + 1;
            i = i + 1;
            if bit_idx == 8 {
                let ghost before = buffer@;
                buffer.push(byte);
                assert(i / 8 == g + 1);
                assert(buffer@ =~= start + Seq::new((i / 8) as nat, |g2: int| flag_byte(rows, key@, g2, 8) as u8));
                byte = 0;
                bit_idx = 0;
                proof {
                    lemma_flag_bits(0, 0, 0);
                }
            } else {
                assert(i / 8 == g);
            }
        }
        let ghost n = rows.len();
        if bit_idx > 0 {
            proof {
                lemma_flag_byte_tail(rows, key@, (n / 8) as int, bit_idx as nat);
            }
            buffer.push(byte);
        }
        assert(buffer@ =~= old(buffer)@ + packed_flags(rows, key@));
    } else {
        let mut i: usize = 0;
        while i < arr.len()
            invariant
                rows == values_view(arr@),
                col_type != ColType::Bool,
                i <= arr@.len(),
                buffer@ == old(buffer)@ + cells_bytes(col_type, rows, key@, i as nat),
            decreases arr.len() - i,
        {
            encode_cell(&arr[i], key, col_type, buffer);
            i = i + 1;
        }
    }
}

/// Encode a columnar array into a buffer: the column count, then each column's key, type,
/// row count and values.
pub fn encode_columnar(arr: &[JsonValue], columns: &[(String, ColType)], buffer: &mut Vec<u8>)
    ensures
        final(buffer)@ == old(buffer)@ + columnar_bytes(values_view(arr@), columns_view(columns@)),
{
    let ghost rows = values_view(arr@);
    let ghost cols = columns_view(columns@);
    let row_count = arr.len();
    encode_varint(columns.len() as u64, buffer);
    let ghost start = buffer@;
    let mut j: usize = 0;
    while j < columns.len()
        invariant
            rows == values_view(arr@),
            cols == columns_view(columns@),
            row_count == arr@.len(),
            j <= columns@.len(),
            start == old(buffer)@ + varint_bytes(columns@.len() as u64),
            buffer@ == start + columns_bytes(rows, cols, j as nat),
        decreases columns.len() - j,
    {
        let key = &columns[j].0;
        let col_type = columns[j].1;
        push_str(key, buffer);
        buffer.push(col_type.tag());
        encode_varint(row_count as u64, buffer);
        encode_column_values(arr, key, col_type, buffer);
        j = j + 1;
        assert(buffer@ =~= start + columns_bytes(rows, cols, j as nat));
    }
}

/// A decoded column with owned values.
pub struct DecodedColumn {
    pub key: String,
    pub col_type: ColType,
    pub values: Vec<JsonValue>,
}

/// A double read from a column: `null` for a NaN, itself when finite, 0 for an infinity.
pub open spec fn column_f64(b: u64) -> Json {
    if (b / 0x10_0000_0000_0000) % 0x800 == 0x7FF && b % 0x10_0000_0000_0000 != 0 {
        Json::Null
    } else if f64_bits_finite(b) {
        Json::Num(JsonNumber::Float(b))
    } else {
        Json::Num(JsonNumber::Int(0))
    }
}

/// A single read from a column: `null` for a NaN, itself (as a double) when finite, 0 for
/// an infinity.
pub open spec fn column_f32(b: u32) -> Json {
    if !f32_bits_finite(b) && b % 0x80_0000 != 0 {
        Json::Null
    } else if f32_bits_finite(b) {
        Json::Num(JsonNumber::Float(widen_f32(b)))
    } else {
        Json::Num(JsonNumber::Int(0))
    }
}

/// A value of a mixed column at the start of `s`: the value and the bytes it took.
pub open spec fn parse_mixed(s: Seq<u8>) -> Result<(Json, nat), FluxPackError> {
    if s.len() == 0 {
        Err(FluxPackError::BufferOverrun)
    } else {
        let tag = s[0];
        if tag == 0x00 {
            Ok((Json::Null, 1))
        } else if tag == 0x01 {
            Ok((Json::Bool(true), 1))
        } else if tag == 0x02 {
            Ok((Json::Bool(false), 1))
        } else if tag == 0x03 {
            match signed_varint_parse(s.skip(1)) {
                Ok((v, c)) => Ok((Json::Num(JsonNumber::Int(v)), c + 1)),
                Err(e) => Err(e),
            }
        } else if tag == 0x04 {
            if s.len() < 9 {
                Err(FluxPackError::BufferOverrun)
            } else {
                let b = spec_u64_from_le_bytes(s.subrange(1, 9));
                Ok((if f64_bits_finite(b) { Json::Num(JsonNumber::Float(b)) } else { Json::Null }, 9))
            }
        } else if tag == 0x05 {
            match varint_parse(s.skip(1)) {
                Ok((len, c)) => {
                    let start = 1 + c;
                    if len > remaining(s, start) {
                        Err(FluxPackError::BufferOverrun)
                    } else if !valid_utf8(s.subrange(start as int, start + len)) {
                        Err(FluxPackError::InvalidUtf8)
                    } else {
                        Ok((Json::Str(decode_utf8(s.subrange(start as int, start + len))), (start + len) as nat))
                    }
                },
                Err(e) => Err(e),
            }
        } else {
            Err(FluxPackError::InvalidValueType(tag))
        }
    }
}

/// One cell of a column of type `t` (not `Null` or `Bool`) at `pos`: the value and the
/// bytes it took.
pub open spec fn parse_cell(t: ColType, s: Seq<u8>, pos: nat) -> Result<(Json, nat), FluxPackError> {
    match t {
        ColType::Int => match signed_varint_parse(s.skip(pos as int)) {
            Ok((v, c)) => Ok((Json::Num(JsonNumber::Int(v)), c)),
            Err(e) => Err(e),
        },
        ColType::UInt => match varint_parse(s.skip(pos as int)) {
            Ok((v, c)) => Ok((Json::Num(number_from_u64(v)), c)),
            Err(e) => Err(e),
        },
        ColType::Float64 => if remaining(s, pos) < 8 {
            Err(FluxPackError::BufferOverrun)
        } else {
            Ok((column_f64(spec_u64_from_le_bytes(s.subrange(pos as int, (pos + 8) as int))), 8))
        },
        ColType::Float32 => if remaining(s, pos) < 4 {
            Err(FluxPackError::BufferOverrun)
        } else {
            Ok((column_f32(spec_u32_from_le_bytes(s.subrange(pos as int, (pos + 4) as int))), 4))
        },
        ColType::String => match varint_parse(s.skip(pos as int)) {
            Ok((len, c)) => {
                let start = pos + c;
                if len == 0 {
                    Ok((Json::Null, c))
                } else if len > remaining(s, start) {
                    Err(FluxPackError::BufferOverrun)
                } else if !valid_utf8(s.subrange(start as int, start + len)) {
                    Err(FluxPackError::InvalidUtf8)
                } else {
                    Ok((Json::Str(decode_utf8(s.subrange(start as int, start + len))), (c + len) as nat))
                }
            },
            Err(e) => Err(e),
        },
        _ => match parse_mixed(s.skip(pos as int)) {
            Ok((v, c)) => Ok((v, c)),
            Err(e) => Err(e),
        },
    }
}

/// `k` more cells from `pos` after the values `acc`: all the values and the position after.
pub open spec fn parse_cells(t: ColType, s: Seq<u8>, pos: nat, k: nat, acc: Seq<Json>) -> Result<(Seq<Json>, nat), FluxPackError>
    decreases k,
{
    if k == 0 {
        Ok((acc, pos))
    } else {
        match parse_cell(t, s, pos) {
            Ok((v, c)) => parse_cells(t, s, pos + c, (k - 1) as nat, acc.push(v)),
            Err(e) => Err(e),
        }
    }
}

/// The `Bool` column of `count` rows at the start of `s`, as far as its bytes are there.
pub open spec fn bool_column(count: nat, s: Seq<u8>) -> Seq<Json> {
    let needed = count / 8 + if count % 8 != 0 { 1nat } else { 0 };
    let avail = if needed <= s.len() { needed } else { s.len() };
    let n = if count <= 8 * avail { count } else { 8 * avail };
    Seq::new(n, |i: int| Json::Bool((s[i / 8] >> ((i % 8) as u8)) & 1 == 1))
}

/// A column of type `t` with `count` rows at the start of `s`: the values and the bytes
/// they took.
pub open spec fn parse_column(t: ColType, count: nat, s: Seq<u8>) -> Result<(Seq<Json>, nat), FluxPackError> {
    match t {
        ColType::Null => Ok((Seq::new(count, |i: int| Json::Null), 0)),
        ColType::Bool => Ok((bool_column(count, s), count / 8 + if count % 8 != 0 { 1nat } else { 0 })),
        _ => match parse_cells(t, s, 0, count, Seq::empty()) {
            Ok((vals, end)) => Ok((vals, end)),
            Err(e) => Err(e),
        },
    }
}

/// Reads a value of a mixed column at the start of `input`.
fn decode_mixed_value(input: &[u8]) -> (r: Result<(JsonValue, usize), FluxPackError>)
    ensures
        match parse_mixed(input@) {
            Ok((v, c)) => r matches Ok((x, n)) && x@ == v && n == c && n <= input@.len(),
            Err(e) => r == Err::<(JsonValue, usize), FluxPackError>(e),
        },
{
    let ilen = input.len();
    if ilen == 0 {
        return Err(FluxPackError::BufferOverrun);
    }
    let tag = input[0];
    match tag {
        0x00 => Ok((JsonValue::Null, 1)),
        0x01 => Ok((JsonValue::Bool(true), 1)),
        0x02 => Ok((JsonValue::Bool(false), 1)),
        0x03 => {
            match decode_signed_varint_at(input, 1) {
                Ok((v, c)) => Ok((JsonValue::Number(JsonNumber::Int(v)), c + 1)),
                Err(e) => Err(e),
            }
        },
        0x04 => {
            if ilen < 9 {
                return Err(FluxPackError::BufferOverrun);
            }
            let b = read_u64_le(input, 1);
            if (b >> 52u64) & 0x7FF != 0x7FF {
                Ok((JsonValue::Number(JsonNumber::Float(b)), 9))
            } else {
                Ok((JsonValue::Null, 9))
            }
        },
        0x05 => {
            let (len, c) = match decode_varint_at(input, 1) {
                Ok(x) => x,
                Err(e) => {
                    return Err(e);
                },
            };
            let start = 1 + c;
            if len > (ilen - start) as u64 {
                return Err(FluxPackError::BufferOverrun);
            }
            let end = start + len as usize;
            match utf8_str(input, start, end) {
                Ok(st) => Ok((JsonValue::String(st.to_owned()), end)),
                Err(_) => Err(FluxPackError::InvalidUtf8),
            }
        },
        _ => Err(FluxPackError::InvalidValueType(tag)),
    }
}

/// Reads one cell of a column of type `t` (not `Null` or `Bool`) at `pos`.
fn decode_cell(col_type: ColType, input: &[u8], pos: usize) -> (r: Result<(JsonValue, usize), FluxPackError>)
    requires
        pos <= input@.len(),
        col_type != ColType::Null,
        col_type != ColType::Bool,
    ensures
        match parse_cell(col_type, input@, pos as nat) {
            Ok((v, c)) => r matches Ok((x, n)) && x@ == v && n == c && pos + n <= input@.len(),
            Err(e) => r == Err::<(JsonValue, usize), FluxPackError>(e),
        },
{
    let ilen = input.len();
    match col_type {
        ColType::Int => {
            match decode_signed_varint_at(input, pos) {
                Ok((v, c)) => Ok((JsonValue::Number(JsonNumber::Int(v)), c)),
                Err(e) => Err(e),
            }
        },
        ColType::UInt => {
            match decode_varint_at(input, pos) {
                Ok((v, c)) => Ok((JsonValue::Number(number_from_u64_exec(v)), c)),
                Err(e) => Err(e),
            }
        },
        ColType::Float64 => {
            if ilen - pos < 8 {
                return Err(FluxPackError::BufferOverrun);
            }
            let b = read_u64_le(input, pos);
            let e: u64 = (b >> 52u64) & 0x7FF;
            let m: u64 = b & 0xF_FFFF_FFFF_FFFF;
            proof {
                lemma_f64_fields(b);
            }
            if e == 0x7FF && m != 0 {
                Ok((JsonValue::Null, 8))
            } else if e != 0x7FF {
                Ok((JsonValue::Number(JsonNumber::Float(b)), 8))
            } else {
                Ok((JsonValue::Number(JsonNumber::Int(0)), 8))
            }
        },
        ColType::Float32 => {
            if ilen - pos < 4 {
                return Err(FluxPackError::BufferOverrun);
            }
            let part = vstd::slice::slice_subrange(input, pos, pos + 4);
            let b = vstd::bytes::u32_from_le_bytes(part);
            let e: u32 = (b >> 23u32) & 0xFF;
            let m: u32 = b & 0x7F_FFFF;
            assert(m == b % 0x80_0000) by (bit_vector)
                requires m == b & 0x7F_FFFF;
            if e == 0xFF && m != 0 {
                Ok((JsonValue::Null, 4))
            } else if e != 0xFF {
                Ok((JsonValue::Number(JsonNumber::Float(widen_f32_bits(b))), 4))
            } else {
                Ok((JsonValue::Number(JsonNumber::Int(0)), 4))
            }
        },
        ColType::String => {
            let (len, c) = match decode_varint_at(input, pos) {
                Ok(x) => x,
                Err(e) => {
                    return Err(e);
                },
            };
            let start = pos + c;
            if len == 0 {
                return Ok((JsonValue::Null, c));
            }
            if len > (ilen - start) as u64 {
                return Err(FluxPackError::BufferOverrun);
            }
            let end = start + len as usize;
            match utf8_str(input, start, end) {
                Ok(st) => Ok((JsonValue::String(st.to_owned()), c + len as usize)),
                Err(_) => Err(FluxPackError::InvalidUtf8),
            }
        },
        _ => {
            let rest = vstd::slice::slice_subrange(input, pos, ilen);
            assert(rest@ =~= input@.skip(pos as int));
            decode_mixed_value(rest)
        },
    }
}

/// Reads a column of type `col_type` with `count` rows at the start of `input`.
fn decode_column_values_with_count(col_type: ColType, count: usize, input: &[u8])
    -> (r: Result<(Vec<JsonValue>, usize), FluxPackError>)
    ensures
        match parse_column(col_type, count as nat, input@) {
            Ok((vals, used)) => r matches Ok((v, n)) && values_view(v@) == vals && n == used,
            Err(e) => r == Err::<(Vec<JsonValue>, usize), FluxPackError>(e),
        },
{
    let ilen = input.len();
    match col_type {
        ColType::Null => {
            let mut values: Vec<JsonValue> = Vec::new();
            let mut i: usize = 0;
            while i < count
                invariant
                    i <= count,
                    values_view(values@) == Seq::new(i as nat, |j: int| Json::Null),
                decreases count - i,
            {
                proof {
                    lemma_values_view_push(values@, JsonValue::Null);
                }
                values.push(JsonValue::Null);
                i = i + 1;
                assert(values_view(values@) =~= Seq::new(i as nat, |j: int| Json::Null));
            }
            Ok((values, 0))
        },
        ColType::Bool => {
            let needed: usize = count / 8 + if count % 8 != 0 { 1 } else { 0 };
            let avail: usize = if needed <= ilen { needed } else { ilen };
            let ghost n: nat = if count <= 8 * avail { count as nat } else { (8 * avail) as nat };
            let mut values: Vec<JsonValue> = Vec::new();
            let mut b: usize = 0;
            while b < avail
                invariant
                    avail <= ilen,
                    ilen == input@.len(),
                    b <= avail,
                    n == (if count <= 8 * avail { count as nat } else { (8 * avail) as nat }),
                    values@.len() == (if count <= 8 * b { count as nat } else { (8 * b) as nat }),
                    values_view(values@) == Seq::new(values@.len(), |i: int| Json::Bool((input@[i / 8] >> ((i % 8) as u8)) & 1 == 1)),
                decreases avail - b,
            {
                let byte = input[b];
                let mut bit: u8 = 0;
                while bit < 8
                    invariant
                        b < avail,
                        avail <= ilen,
                        ilen == input@.len(),
                        byte == input@[b as int],
                        bit <= 8,
                        values@.len() == (if count <= 8 * b + bit { count as nat } else { (8 * b + bit) as nat }),
                        values_view(values@) == Seq::new(values@.len(), |i: int| Json::Bool((input@[i / 8] >> ((i % 8) as u8)) & 1 == 1)),
                    ensures
                        values@.len() == (if count <= 8 * b + 8 { count as nat } else { (8 * b + 8) as nat }),
                        values_view(values@) == Seq::new(values@.len(), |i: int| Json::Bool((input@[i / 8] >> ((i % 8) as u8)) & 1 == 1)),
                    decreases 8 - bit,
                {
                    if values.len() >= count {
                        break;
                    }
                    let v = JsonValue::Bool((byte >> bit) & 1 == 1);
                    proof {
                        lemma_values_view_push(values@, v);
                        let i = values@.len() as int;
                        assert(i / 8 == b && i % 8 == bit) by (nonlinear_arith)
                            requires i == 8 * b + bit, bit < 8;
                    }
                    values.push(v);
                    bit = bit + 1;
                    assert(values_view(values@) =~= Seq::new(values@.len(), |i: int| Json::Bool((input@[i / 8] >> ((i % 8) as u8)) & 1 == 1)));
                }
                b = b + 1;
            }
            assert(values_view(values@) =~= bool_column(count as nat, input@));
            Ok((values, needed))
        },
        _ => {
            let mut values: Vec<JsonValue> = Vec::new();
            let mut pos: usize = 0;
            let mut k: usize = 0;
            assert(values_view(values@) =~= Seq::<Json>::empty());
            while k < count
                invariant
                    ilen == input@.len(),
                    col_type != ColType::Null,
                    col_type != ColType::Bool,
                    k <= count,
                    pos <= ilen,
                    parse_cells(col_type, input@, 0, count as nat, Seq::empty())
                        == parse_cells(col_type, input@, pos as nat, (count - k) as nat, values_view(values@)),
                decreases count - k,
            {
                let (v, c) = match decode_cell(col_type, input, pos) {
                    Ok(x) => x,
                    Err(e) => {
                        return Err(e);
                    },
                };
                proof {
                    lemma_values_view_push(values@, v);
                }
                values.push(v);
                pos = pos + c;
                k = k + 1;
            }
            Ok((values, pos))
        },
    }
}

/// Decoded columns as mathematical values.
pub open spec fn decoded_view(v: Seq<DecodedColumn>) -> Seq<(Seq<char>, ColType, Seq<Json>)> {
    Seq::new(v.len(), |i: int| (v[i].key@, v[i].col_type, values_view(v[i].values@)))
}

/// `k` more columns from `pos` after the columns `acc`: all the columns and the position after.
pub open spec fn parse_columns(s: Seq<u8>, pos: nat, k: nat, acc: Seq<(Seq<char>, ColType, Seq<Json>)>)
    -> Result<(Seq<(Seq<char>, ColType, Seq<Json>)>, nat), FluxPackError>
    decreases k,
{
    if k == 0 {
        Ok((acc, pos))
    } else {
        match varint_parse(s.skip(pos as int)) {
            Ok((klen, c1)) => {
                let ks = pos + c1;
                if klen > remaining(s, ks) {
                    Err(FluxPackError::BufferOverrun)
                } else if !valid_utf8(s.subrange(ks as int, ks + klen)) {
                    Err(FluxPackError::InvalidUtf8)
                } else {
                    let key = decode_utf8(s.subrange(ks as int, ks + klen));
                    let p2 = (ks + klen) as nat;
                    if p2 >= s.len() {
                        Err(FluxPackError::BufferOverrun)
                    } else {
                        match col_of_tag(s[p2 as int]) {
                            None => Err(FluxPackError::InvalidValueType(s[p2 as int])),
                            Some(t) => match varint_parse(s.skip((p2 + 1) as int)) {
                                Ok((rc, c2)) => {
                                    let p3 = p2 + 1 + c2;
                                    match parse_column(t, (rc as usize) as nat, s.skip(p3 as int)) {
                                        Ok((vals, used)) => if used > remaining(s, p3) {
                                            Err(FluxPackError::BufferOverrun)
                                        } else {
                                            parse_columns(s, p3 + used, (k - 1) as nat, acc.push((key, t, vals)))
                                        },
                                        Err(e) => Err(e),
                                    }
                                },
                                Err(e) => Err(e),
                            },
                        }
                    }
                }
            },
            Err(e) => Err(e),
        }
    }
}

/// What `decode_columnar` reads from `s`: the row count (the first column's length, 0
/// without columns), the columns, and the bytes they took.
pub open spec fn parse_columnar(s: Seq<u8>) -> Result<(nat, Seq<(Seq<char>, ColType, Seq<Json>)>, nat), FluxPackError> {
    match varint_parse(s) {
        Ok((n, c)) => match parse_columns(s, c, n as nat, Seq::empty()) {
            Ok((cols, end)) => Ok((if cols.len() > 0 { cols[0].2.len() } else { 0 }, cols, end)),
            Err(e) => Err(e),
        },
        Err(e) => Err(e),
    }
}

/// Decode columnar data: the row count, the columns, and the bytes they took.
pub fn decode_columnar(input: &[u8]) -> (r: Result<(usize, Vec<DecodedColumn>, usize), FluxPackError>)
    ensures
        match parse_columnar(input@) {
            Ok((rows, cols, end)) => r matches Ok((n, v, used)) && n == rows && decoded_view(v@) == cols
                && used == end && used <= input@.len(),
            Err(e) => r == Err::<(usize, Vec<DecodedColumn>, usize), FluxPackError>(e),
        },
{
    let ilen = input.len();
    assert(input@.skip(0) =~= input@);
    let (col_count, c) = match decode_varint_at(input, 0) {
        Ok(x) => x,
        Err(e) => {
            return Err(e);
        },
    };
    let mut cursor = c;
    let mut columns: Vec<DecodedColumn> = Vec::new();
    let mut k: u64 = 0;
    assert(decoded_view(columns@) =~= Seq::<(Seq<char>, ColType, Seq<Json>)>::empty());
    while k < col_count
        invariant
            ilen == input@.len(),
            k <= col_count,
            cursor <= ilen,
            varint_parse(input@) == Ok::<(u64, nat), FluxPackError>((col_count, c as nat)),
            parse_columns(input@, c as nat, col_count as nat, Seq::empty())
                == parse_columns(input@, cursor as nat, (col_count - k) as nat, decoded_view(columns@)),
        decreases col_count - k,
    {
        let (key_len, c1) = match decode_varint_at(input, cursor) {
            Ok(x) => x,
            Err(e) => {
                return Err(e);
            },
        };
        let ks = cursor + c1;
        if key_len > (ilen - ks) as u64 {
            return Err(FluxPackError::BufferOverrun);
        }
        let key_end = ks + key_len as usize;
        let key = match utf8_str(input, ks, key_end) {
            Ok(st) => st.to_owned(),
            Err(_) => {
                return Err(FluxPackError::InvalidUtf8);
            },
        };
        if key_end >= ilen {
            return Err(FluxPackError::BufferOverrun);
        }
        let col_type = match ColType::from_tag(input[key_end]) {
            Some(t) => t,
            None => {
                return Err(FluxPackError::InvalidValueType(input[key_end]));
            },
        };
        let (row_count, c2) = match decode_varint_at(input, key_end + 1) {
            Ok(x) => x,
            Err(e) => {
                return Err(e);
            },
        };
        let p3 = key_end + 1 + c2;
        let rest = vstd::slice::slice_subrange(input, p3, ilen);
        assert(rest@ =~= input@.skip(p3 as int));
        let (values, used) = match decode_column_values_with_count(col_type, row_count as usize, rest) {
            Ok(x) => x,
            Err(e) => {
                return Err(e);
            },
        };
        if used > ilen - p3 {
            return Err(FluxPackError::BufferOverrun);
        }
        let ghost before = columns@;
        columns.push(DecodedColumn { key, col_type, values });
        assert(decoded_view(columns@) =~= decoded_view(before).push((key@, col_type, values_view(values@))));
        cursor = p3 + used;
        k = k + 1;
    }
    let row_count = if columns.len() > 0 { columns[0].values.len() } else { 0 };
    Ok((row_count, columns, cursor))
}

/// The object for row `r` built from the first `n` columns: each column's key with its
/// value at `r`, or `null` past its end.
pub open spec fn row_object(cols: Seq<(Seq<char>, ColType, Seq<Json>)>, r: int, n: nat) -> Seq<(Seq<char>, Json)>
    decreases n,
{
    if n == 0 || n > cols.len() {
        Seq::empty()
    } else {
        let c = cols[n - 1];
        obj_insert(row_object(cols, r, (n - 1) as nat), c.0, if r < c.2.len() { c.2[r] } else { Json::Null })
    }
}

/// The array rebuilt from columns: one object per row.
pub open spec fn rebuilt_array(row_count: nat, cols: Seq<(Seq<char>, ColType, Seq<Json>)>) -> Json {
    Json::Arr(Seq::new(row_count, |r: int| Json::Obj(row_object(cols, r, cols.len()))))
}

/// Reconstruct a JSON array from decoded columns.
pub fn reconstruct_array(row_count: usize, columns: Vec<DecodedColumn>) -> (r: JsonValue)
    ensures
        r@ == rebuilt_array(row_count as nat, decoded_view(columns@)),
{
    let ghost cols = decoded_view(columns@);
    let mut arr: Vec<JsonValue> = Vec::new();
    let mut row: usize = 0;
    while row < row_count
        invariant
            cols == decoded_view(columns@),
            row <= row_count,
            values_view(arr@) == Seq::new(row as nat, |r: int| Json::Obj(row_object(cols, r, cols.len()))),
        decreases row_count - row,
    {
        let mut obj: Vec<(String, JsonValue)> = Vec::new();
        let mut j: usize = 0;
        assert(fields_view(obj@) =~= Seq::<(Seq<char>, Json)>::empty());
        while j < columns.len()
            invariant
                cols == decoded_view(columns@),
                j <= columns@.len(),
                fields_view(obj@) == row_object(cols, row as int, j as nat),
            decreases columns.len() - j,
        {
            let col = &columns[j];
            let val = if row < col.values.len() {
                clone_json(&col.values[row])
            } else {
                JsonValue::Null
            };
            assert(cols[j as int].2 == values_view(col.values@));
            object_insert(&mut obj, col.key.clone(), val);
            j = j + 1;
        }
        let v = JsonValue::Object(obj);
        proof {
            lemma_object_view(obj);
            lemma_values_view_push(arr@, v);
        }
        arr.push(v);
        row = row + 1;
        assert(values_view(arr@) =~= Seq::new(row as nat, |r: int| Json::Obj(row_object(cols, r, cols.len()))));
    }
    proof {
        lemma_array_view(arr);
    }
    JsonValue::Array(arr)
}

} // verus!
