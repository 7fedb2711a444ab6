//! Tensors: multi-dimensional numeric arrays with shape metadata.
//!
//! Wire format: `dtype(byte) | ndims(varint) | shape[ndims](varint each) | data(flat bytes)`.
use vstd::prelude::*;
use vstd::bytes::{spec_u32_to_le_bytes, spec_u64_to_le_bytes, spec_u32_from_le_bytes, spec_u64_from_le_bytes,
    lemma_auto_spec_u64_to_from_le_bytes};
use crate::error::FluxPackError;
use crate::json::{Json, JsonNumber, JsonValue, values_view, lemma_values_view_push, lemma_array_view};
use crate::varint::{encode_varint, decode_varint_at, varint_bytes, varint_parse, lemma_varint_roundtrip};
use crate::wire::{push_bytes, f64_bits_finite, number_from_u64, number_from_u64_exec};
use crate::float_bits::{widen_f32, widen_f32_bits, f32_bits_finite, narrow_f64, narrow_f64_bits};
use crate::columnar::{number_f64_bits, number_to_f64_bits};
use crate::roundtrip::{holds_at, lemma_holds_split, lemma_varint_at};

verus! {

/// Data type tags for tensors.
#[derive(Debug, Clone, Copy, PartialEq, Eq, Structural)]
pub enum TensorDtype {
    F32,
    F64,
    I32,
    I64,
    U32,
    U64,
}

/// The dtype a tag byte names.
pub open spec fn dtype_of_tag(tag: u8) -> Option<TensorDtype> {
    if tag == 0x00 {
        Some(TensorDtype::F32)
    } else if tag == 0x01 {
        Some(TensorDtype::F64)
    } else if tag == 0x02 {
        Some(TensorDtype::I32)
    } else if tag == 0x03 {
        Some(TensorDtype::I64)
    } else if tag == 0x04 {
        Some(TensorDtype::U32)
    } else if tag == 0x05 {
        Some(TensorDtype::U64)
    } else {
        None
    }
}

/// The tag byte of a dtype.
pub open spec fn dtype_tag(d: TensorDtype) -> u8 {
    match d {
        TensorDtype::F32 => 0x00,
        TensorDtype::F64 => 0x01,
        TensorDtype::I32 => 0x02,
        TensorDtype::I64 => 0x03,
        TensorDtype::U32 => 0x04,
        TensorDtype::U64 => 0x05,
    }
}

/// The bytes one element of a dtype takes.
pub open spec fn dtype_size(d: TensorDtype) -> nat {
    match d {
        TensorDtype::F32 | TensorDtype::I32 | TensorDtype::U32 => 4,
        TensorDtype::F64 | TensorDtype::I64 | TensorDtype::U64 => 8,
    }
}

impl TensorDtype {
    pub fn from_tag(tag: u8) -> (r: Option<Self>)
        ensures
            r == dtype_of_tag(tag),
    {
        match tag {
            0x00 => Some(TensorDtype::F32),
            0x01 => Some(TensorDtype::F64),
            0x02 => Some(TensorDtype::I32),
            0x03 => Some(TensorDtype::I64),
            0x04 => Some(TensorDtype::U32),
            0x05 => Some(TensorDtype::U64),
            _ => None,
        }
    }

    /// The tag byte of this dtype on the wire.
    pub fn tag(self) -> (r: u8)
        ensures
            r == dtype_tag(self),
            dtype_of_tag(r) == Some(self),
    {
        match self {
            TensorDtype::F32 => 0x00,
            TensorDtype::F64 => 0x01,
            TensorDtype::I32 => 0x02,
            TensorDtype::I64 => 0x03,
            TensorDtype::U32 => 0x04,
            TensorDtype::U64 => 0x05,
        }
    }

    pub fn element_size(self) -> (r: usize)
        ensures
            r == dtype_size(self),
    {
        match self {
            TensorDtype::F32 | TensorDtype::I32 | TensorDtype::U32 => 4,
            TensorDtype::F64 | TensorDtype::I64 | TensorDtype::U64 => 8,
        }
    }
}

/// The product of the dimensions.
pub open spec fn shape_product(s: Seq<usize>) -> nat
    decreases s.len(),
{
    if s.len() == 0 {
        1
    } else {
        shape_product(s.drop_last()) * (s.last() as nat)
    }
}

/// The little-endian bytes of each 32-bit value, one after the other.
pub open spec fn le_bytes32(v: Seq<u32>) -> Seq<u8>
    decreases v.len(),
{
    if v.len() == 0 {
        Seq::empty()
    } else {
        le_bytes32(v.drop_last()) + spec_u32_to_le_bytes(v.last())
    }
}

/// The little-endian bytes of each 64-bit value, one after the other.
pub open spec fn le_bytes64(v: Seq<u64>) -> Seq<u8>
    decreases v.len(),
{
    if v.len() == 0 {
        Seq::empty()
    } else {
        le_bytes64(v.drop_last()) + spec_u64_to_le_bytes(v.last())
    }
}

/// The two's complement bits of each value.
pub open spec fn i32_bits(v: Seq<i32>) -> Seq<u32> {
    Seq::new(v.len(), |i: int| v[i] as u32)
}

pub open spec fn i64_bits(v: Seq<i64>) -> Seq<u64> {
    Seq::new(v.len(), |i: int| v[i] as u64)
}

/// Appends the little-endian bytes of each value.
pub fn push_le_bytes32(data: &[u32], buffer: &mut Vec<u8>)
    ensures
        final(buffer)@ == old(buffer)@ + le_bytes32(data@),
{
    let mut i: usize = 0;
    while i < data.len()
        invariant
            i <= data@.len(),
            buffer@ == old(buffer)@ + le_bytes32(data@.subrange(0, i as int)),
        decreases data.len() - i,
    {
        let b = vstd::bytes::u32_to_le_bytes(data[i]);
        push_bytes(buffer, b.as_slice());
        assert(data@.subrange(0, i + 1).drop_last() =~= data@.subrange(0, i as int));
        i = i + 1;
    }
    assert(data@.subrange(0, data@.len() as int) =~= data@);
}

/// Appends the little-endian bytes of each value.
pub fn push_le_bytes64(data: &[u64], buffer: &mut Vec<u8>)
    ensures
        final(buffer)@ == old(buffer)@ + le_bytes64(data@),
{
    let mut i: usize = 0;
    while i < data.len()
        invariant
            i <= data@.len(),
            buffer@ == old(buffer)@ + le_bytes64(data@.subrange(0, i as int)),
        decreases data.len() - i,
    {
        let b = vstd::bytes::u64_to_le_bytes(data[i]);
        push_bytes(buffer, b.as_slice());
        assert(data@.subrange(0, i + 1).drop_last() =~= data@.subrange(0, i as int));
        i = i + 1;
    }
    assert(data@.subrange(0, data@.len() as int) =~= data@);
}

/// A tensor with shape and typed data.
#[derive(Debug, Clone)]
pub struct Tensor {
    pub dtype: TensorDtype,
    pub shape: Vec<usize>,
    pub data: Vec<u8>,
}

/// The JSON number a single with these bits converts to: itself when finite, else 0.
pub open spec fn json_of_f32(b: u32) -> Json {
    if f32_bits_finite(b) {
        Json::Num(JsonNumber::Float(widen_f32(b)))
    } else {
        Json::Num(JsonNumber::Int(0))
    }
}

/// The JSON number a double with these bits converts to: itself when finite, else 0.
pub open spec fn json_of_f64(b: u64) -> Json {
    if f64_bits_finite(b) {
        Json::Num(JsonNumber::Float(b))
    } else {
        Json::Num(JsonNumber::Int(0))
    }
}

/// Element `i` of tensor data as JSON.
pub open spec fn tensor_element(dtype: TensorDtype, data: Seq<u8>, i: int) -> Json {
    let k = dtype_size(dtype) as int;
    let chunk = data.subrange(i * k, i * k + k);
    match dtype {
        TensorDtype::F32 => json_of_f32(spec_u32_from_le_bytes(chunk)),
        TensorDtype::F64 => json_of_f64(spec_u64_from_le_bytes(chunk)),
        TensorDtype::I32 => Json::Num(JsonNumber::Int((#[verifier::truncate] (spec_u32_from_le_bytes(chunk) as i32)) as i64)),
        TensorDtype::I64 => Json::Num(JsonNumber::Int(#[verifier::truncate] (spec_u64_from_le_bytes(chunk) as i64))),
        TensorDtype::U32 => Json::Num(JsonNumber::Int(spec_u32_from_le_bytes(chunk) as i64)),
        TensorDtype::U64 => Json::Num(number_from_u64(spec_u64_from_le_bytes(chunk))),
    }
}

/// A tensor's data as a JSON array, one number per element.
pub open spec fn tensor_json(dtype: TensorDtype, data: Seq<u8>) -> Json {
    Json::Arr(Seq::new(data.len() / dtype_size(dtype), |i: int| tensor_element(dtype, data, i)))
}

/// The element at `i` of tensor data as a JSON value.
fn element_to_json(dtype: TensorDtype, data: &Vec<u8>, i: usize) -> (r: JsonValue)
    requires
        (i + 1) * dtype_size(dtype) <= data@.len(),
    ensures
        r@ == tensor_element(dtype, data@, i as int),
{
    let k = dtype.element_size();
    let dlen = data.len();
    assert(i * k + k <= data@.len()) by (nonlinear_arith)
        requires (i + 1) * k <= data@.len();
    let start = i * k;
    let chunk = vstd::slice::slice_subrange(data.as_slice(), start, start + k);
    assert(chunk@ == data@.subrange(i * dtype_size(dtype), i * dtype_size(dtype) + dtype_size(dtype)));
    match dtype {
        TensorDtype::F32 => {
            let bits = vstd::bytes::u32_from_le_bytes(chunk);
            let exp: u32 = (bits >> 23u32) & 0xFF;
            if exp != 0xFF {
                JsonValue::Number(JsonNumber::Float(widen_f32_bits(bits)))
            } else {
                JsonValue::Number(JsonNumber::Int(0))
            }
        },
        TensorDtype::F64 => {
            let bits = vstd::bytes::u64_from_le_bytes(chunk);
            if (bits >> 52u64) & 0x7FF != 0x7FF {
                JsonValue::Number(JsonNumber::Float(bits))
            } else {
                JsonValue::Number(JsonNumber::Int(0))
            }
        },
        TensorDtype::I32 => {
            let bits = vstd::bytes::u32_from_le_bytes(chunk);
            JsonValue::Number(JsonNumber::Int((#[verifier::truncate] (bits as i32)) as i64))
        },
        TensorDtype::I64 => {
            let bits = vstd::bytes::u64_from_le_bytes(chunk);
            JsonValue::Number(JsonNumber::Int(#[verifier::truncate] (bits as i64)))
        },
        TensorDtype::U32 => {
            let bits = vstd::bytes::u32_from_le_bytes(chunk);
            JsonValue::Number(JsonNumber::Int(bits as i64))
        },
        TensorDtype::U64 => {
            let bits = vstd::bytes::u64_from_le_bytes(chunk);
            JsonValue::Number(number_from_u64_exec(bits))
        },
    }
}

/// A JSON integer (signed, or unsigned above `i64::MAX`).
pub open spec fn is_int_num(v: Json) -> bool {
    v matches Json::Num(n) && !(n is Float)
}

/// A JSON number that is neither kind of integer.
pub open spec fn is_float_num(v: Json) -> bool {
    v matches Json::Num(JsonNumber::Float(_))
}

/// The signed integers among the values, in order (anything else skipped).
pub open spec fn json_ints(vals: Seq<Json>) -> Seq<i64>
    decreases vals.len(),
{
    if vals.len() == 0 {
        Seq::empty()
    } else {
        json_ints(vals.drop_last()) + match vals.last() {
            Json::Num(JsonNumber::Int(i)) => seq![i],
            _ => Seq::empty(),
        }
    }
}

/// The bits of the doubles the numbers among the values convert to, in order.
pub open spec fn json_doubles(vals: Seq<Json>) -> Seq<u64>
    decreases vals.len(),
{
    if vals.len() == 0 {
        Seq::empty()
    } else {
        json_doubles(vals.drop_last()) + match vals.last() {
            Json::Num(n) => seq![number_f64_bits(n)],
            _ => Seq::empty(),
        }
    }
}

/// The bits of the singles the numbers among the values round to, in order.
pub open spec fn json_singles(vals: Seq<Json>) -> Seq<u32>
    decreases vals.len(),
{
    if vals.len() == 0 {
        Seq::empty()
    } else {
        json_singles(vals.drop_last()) + match vals.last() {
            Json::Num(n) => seq![narrow_f64(number_f64_bits(n))],
            _ => Seq::empty(),
        }
    }
}

/// The dtype and data a JSON array becomes: none when empty; i64 when every value is an
/// integer (integers above `i64::MAX` dropped), f64 when every value is a non-integer number,
/// else f32 (non-numbers dropped).
pub open spec fn tensor_from_json(vals: Seq<Json>) -> Option<(TensorDtype, Seq<u8>)> {
    if vals.len() == 0 {
        None
    } else if forall|i: int| 0 <= i < vals.len() ==> is_int_num(#[trigger] vals[i]) {
        Some((TensorDtype::I64, le_bytes64(i64_bits(json_ints(vals)))))
    } else if forall|i: int| 0 <= i < vals.len() ==> is_float_num(#[trigger] vals[i]) {
        Some((TensorDtype::F64, le_bytes64(json_doubles(vals))))
    } else {
        Some((TensorDtype::F32, le_bytes32(json_singles(vals))))
    }
}

/// The shape a JSON array's tensor gets: the one given, else one dimension of its length.
pub open spec fn json_tensor_shape(len: nat, shape: Option<Vec<usize>>) -> Seq<usize> {
    match shape {
        Some(s) => s@,
        None => seq![len as usize],
    }
}

/// A tensor from a JSON array of numbers: see `tensor_from_json`.
fn tensor_parts_from_json(arr: &[JsonValue]) -> (r: Option<(TensorDtype, Vec<u8>)>)
    ensures
        match tensor_from_json(values_view(arr@)) {
            None => r is None,
            Some((d, bytes)) => r matches Some((x, v)) && x == d && v@ == bytes,
        },
{
    let ghost vals = values_view(arr@);
    let n = arr.len();
    if n == 0 {
        return None;
    }
    let mut all_ints = true;
    let mut all_floats = true;
    let mut i: usize = 0;
    while i < n
        invariant
            n == arr@.len(),
            i <= n,
            vals == values_view(arr@),
            all_ints == (forall|j: int| 0 <= j < i ==> is_int_num(#[trigger] vals[j])),
            all_floats == (forall|j: int| 0 <= j < i ==> is_float_num(#[trigger] vals[j])),
        decreases n - i,
    {
        let (is_int, is_float) = match &arr[i] {
            JsonValue::Number(JsonNumber::Int(_)) => (true, false),
            JsonValue::Number(JsonNumber::UInt(_)) => (true, false),
            JsonValue::Number(JsonNumber::Float(_)) => (false, true),
            _ => (false, false),
        };
        assert(vals[i as int] == arr@[i as int]@);
        assert(is_int == is_int_num(vals[i as int]));
        assert(is_float == is_float_num(vals[i as int]));
        all_ints = all_ints && is_int;
        all_floats = all_floats && is_float;
        i = i + 1;
    }
    let mut ints: Vec<i64> = Vec::new();
    let mut doubles: Vec<u64> = Vec::new();
    let mut singles: Vec<u32> = Vec::new();
    let mut i: usize = 0;
    while i < n
        invariant
            n == arr@.len(),
            i <= n,
            vals == values_view(arr@),
            ints@ == json_ints(vals.subrange(0, i as int)),
            doubles@ == json_doubles(vals.subrange(0, i as int)),
            singles@ == json_singles(vals.subrange(0, i as int)),
        decreases n - i,
    {
        assert(vals.subrange(0, i + 1).drop_last() =~= vals.subrange(0, i as int));
        assert(vals.subrange(0, i + 1).last() == vals[i as int]);
        assert(vals[i as int] == arr@[i as int]@);
        match &arr[i] {
            JsonValue::Number(num) => {
                match num {
                    JsonNumber::Int(x) => {
                        ints.push(*x);
                    },
                    _ => {},
                }
                let d = number_to_f64_bits(*num);
                doubles.push(d);
                singles.push(narrow_f64_bits(d));
            },
            _ => {},
        }
        i = i + 1;
        assert(ints@ =~= json_ints(vals.subrange(0, i as int)));
        assert(doubles@ =~= json_doubles(vals.subrange(0, i as int)));
        assert(singles@ =~= json_singles(vals.subrange(0, i as int)));
    }
    assert(vals.subrange(0, n as int) =~= vals);
    if all_ints {
        let t = Tensor::from_i64(ints.as_slice(), Vec::new());
        Some((t.dtype, t.data))
    } else if all_floats {
        let t = Tensor::from_f64(doubles.as_slice(), Vec::new());
        Some((t.dtype, t.data))
    } else {
        let t = Tensor::from_f32(singles.as_slice(), Vec::new());
        Some((t.dtype, t.data))
    }
}

impl Tensor {
    /// Create a tensor from singles, each given by its IEEE-754 bits.
    pub fn from_f32(data: &[u32], shape: Vec<usize>) -> (t: Self)
        ensures
            t.dtype == TensorDtype::F32,
            t.shape@ == shape@,
            t.data@ == le_bytes32(data@),
    {
        let mut byte_data: Vec<u8> = Vec::new();
        push_le_bytes32(data, &mut byte_data);
        Tensor { dtype: TensorDtype::F32, shape, data: byte_data }
    }

    /// Create a tensor from doubles, each given by its IEEE-754 bits.
    pub fn from_f64(data: &[u64], shape: Vec<usize>) -> (t: Self)
        ensures
            t.dtype == TensorDtype::F64,
            t.shape@ == shape@,
            t.data@ == le_bytes64(data@),
    {
        let mut byte_data: Vec<u8> = Vec::new();
        push_le_bytes64(data, &mut byte_data);
        Tensor { dtype: TensorDtype::F64, shape, data: byte_data }
    }

    /// Create a tensor from an i32 slice with shape.
    pub fn from_i32(data: &[i32], shape: Vec<usize>) -> (t: Self)
        ensures
            t.dtype == TensorDtype::I32,
            t.shape@ == shape@,
            t.data@ == le_bytes32(i32_bits(data@)),
    {
        let mut bits: Vec<u32> = Vec::new();
        let mut i: usize = 0;
        while i < data.len()
            invariant
                i <= data@.len(),
                bits@ == i32_bits(data@.subrange(0, i as int)),
            decreases data.len() - i,
        {
            bits.push(data[i] as u32);
            i = i + 1;
            assert(bits@ =~= i32_bits(data@.subrange(0, i as int)));
        }
        assert(data@.subrange(0, data@.len() as int) =~= data@);
        let mut byte_data: Vec<u8> = Vec::new();
        push_le_bytes32(bits.as_slice(), &mut byte_data);
        Tensor { dtype: TensorDtype::I32, shape, data: byte_data }
    }

    /// Create a tensor from an i64 slice with shape.
    pub fn from_i64(data: &[i64], shape: Vec<usize>) -> (t: Self)
        ensures
            t.dtype == TensorDtype::I64,
            t.shape@ == shape@,
            t.data@ == le_bytes64(i64_bits(data@)),
    {
        let mut bits: Vec<u64> = Vec::new();
        let mut i: usize = 0;
        while i < data.len()
            invariant
                i <= data@.len(),
                bits@ == i64_bits(data@.subrange(0, i as int)),
            decreases data.len() - i,
        {
            bits.push(data[i] as u64);
            i = i + 1;
            assert(bits@ =~= i64_bits(data@.subrange(0, i as int)));
        }
        assert(data@.subrange(0, data@.len() as int) =~= data@);
        let mut byte_data: Vec<u8> = Vec::new();
        push_le_bytes64(bits.as_slice(), &mut byte_data);
        Tensor { dtype: TensorDtype::I64, shape, data: byte_data }
    }

    /// Create a tensor from a JSON array of numbers: i64 when every value is an integer
    /// (those above `i64::MAX` dropped), f64 when every value is a non-integer number, else
    /// f32; one dimension of the array's length unless a shape is given. An empty array is
    /// refused.
    pub fn from_json_array(arr: &[JsonValue], shape: Option<Vec<usize>>) -> (r: Result<Self, FluxPackError>)
        ensures
            match tensor_from_json(values_view(arr@)) {
                None => r matches Err(FluxPackError::ColumnarError(m)) && m@ == "empty tensor"@,
                Some((d, bytes)) => r matches Ok(t) && t.dtype == d && t.data@ == bytes
                    && t.shape@ == json_tensor_shape(arr@.len(), shape),
            },
    {
        match tensor_parts_from_json(arr) {
            None => Err(FluxPackError::ColumnarError("empty tensor".to_owned())),
            Some((dtype, data)) => {
                let shape = match shape {
                    Some(s) => s,
                    None => vec![arr.len()],
                };
                Ok(Tensor { dtype, shape, data })
            },
        }
    }

    /// Total number of elements.
    pub fn len(&self) -> (n: usize)
        requires
            product_fits(self.shape@),
        ensures
            n == shape_product(self.shape@),
    {
        product(self.shape.as_slice())
    }

    /// Whether the tensor holds no data.
    pub fn is_empty(&self) -> (r: bool)
        ensures
            r == (self.data@.len() == 0),
    {
        self.data.len() == 0
    }

    /// Decode this tensor back to a JSON array, one number per element.
    pub fn to_json(&self) -> (r: Result<JsonValue, FluxPackError>)
        requires
            self.data@.len() % dtype_size(self.dtype) == 0,
        ensures
            r matches Ok(v) && v@ == tensor_json(self.dtype, self.data@),
    {
        let k = self.dtype.element_size();
        let n = self.data.len() / k;
        let mut values: Vec<JsonValue> = Vec::new();
        let mut i: usize = 0;
        while i < n
            invariant
                k == dtype_size(self.dtype),
                n == self.data@.len() / (k as nat),
                i <= n,
                values_view(values@) == Seq::new(i as nat, |j: int| tensor_element(self.dtype, self.data@, j)),
            decreases n - i,
        {
            assert((i + 1) * k <= self.data@.len()) by (nonlinear_arith)
                requires i < n, n == self.data@.len() / (k as nat), k > 0;
            let v = element_to_json(self.dtype, &self.data, i);
            proof {
                lemma_values_view_push(values@, v);
            }
            values.push(v);
            i = i + 1;
            assert(values_view(values@) =~= Seq::new(i as nat, |j: int| tensor_element(self.dtype, self.data@, j)));
        }
        proof {
            lemma_array_view(values);
        }
        Ok(JsonValue::Array(values))
    }
}

/// Multiplying the dimensions one after the other never overflows a `usize`.
pub open spec fn product_fits(s: Seq<usize>) -> bool {
    forall|i: int| 0 <= i <= s.len() ==> #[trigger] shape_product(s.subrange(0, i)) <= usize::MAX
}

/// The product of the dimensions.
pub fn product(shape: &[usize]) -> (n: usize)
    requires
        product_fits(shape@),
    ensures
        n == shape_product(shape@),
{
    let mut acc: usize = 1;
    let mut i: usize = 0;
    while i < shape.len()
        invariant
            i <= shape@.len(),
            acc == shape_product(shape@.subrange(0, i as int)),
            product_fits(shape@),
        decreases shape.len() - i,
    {
        assert(shape_product(shape@.subrange(0, i + 1)) <= usize::MAX);
        assert(shape@.subrange(0, i + 1).drop_last() =~= shape@.subrange(0, i as int));
        acc = acc * shape[i];
        i = i + 1;
    }
    assert(shape@.subrange(0, shape@.len() as int) =~= shape@);
    acc
}

/// Each dimension as a varint, one after the other.
pub open spec fn dims_bytes(shape: Seq<usize>) -> Seq<u8>
    decreases shape.len(),
{
    if shape.len() == 0 {
        Seq::empty()
    } else {
        dims_bytes(shape.drop_last()) + varint_bytes(shape.last() as u64)
    }
}

/// A tensor on the wire: dtype tag, dimension count, dimensions, data.
pub open spec fn tensor_bytes(dtype: TensorDtype, shape: Seq<usize>, data: Seq<u8>) -> Seq<u8> {
    seq![dtype_tag(dtype)] + varint_bytes(shape.len() as u64) + dims_bytes(shape) + data
}

/// Reading `n` dimensions from `pos`: the dimensions and the position after them.
pub open spec fn parse_dims(s: Seq<u8>, pos: nat, n: nat) -> Result<(Seq<usize>, nat), FluxPackError>
    decreases n,
{
    if n == 0 {
        Ok((Seq::empty(), pos))
    } else {
        match parse_dims(s, pos, (n - 1) as nat) {
            Ok((dims, p)) => match varint_parse(s.skip(p as int)) {
                Ok((d, c)) => Ok((dims.push(d as usize), p + c)),
                Err(e) => Err(e),
            },
            Err(e) => Err(e),
        }
    }
}

/// Reading a tensor header from the start of `s` (which is not empty): the dtype, the
/// shape and the position of the data.
pub open spec fn tensor_header(s: Seq<u8>) -> Result<(TensorDtype, Seq<usize>, nat), FluxPackError> {
    match dtype_of_tag(s[0]) {
        None => Err(FluxPackError::UnsupportedTensorDtype(s[0])),
        Some(dt) => match varint_parse(s.skip(1)) {
            Ok((nd, c)) => match parse_dims(s, 1 + c, nd as nat) {
                Ok((dims, p)) => Ok((dt, dims, p)),
                Err(e) => Err(e),
            },
            Err(e) => Err(e),
        },
    }
}

/// The data that follows a header fits in `s`, and its size in a `usize`.
pub open spec fn tensor_data_fits(s: Seq<u8>) -> bool {
    match tensor_header(s) {
        Ok((dt, shape, p)) => product_fits(shape) && shape_product(shape) * dtype_size(dt) <= usize::MAX
            && p + shape_product(shape) * dtype_size(dt) <= s.len(),
        Err(_) => true,
    }
}

/// Appends each dimension as a varint.
pub fn encode_dims(shape: &Vec<usize>, buffer: &mut Vec<u8>)
    ensures
        final(buffer)@ == old(buffer)@ + dims_bytes(shape@),
{
    let mut i: usize = 0;
    while i < shape.len()
        invariant
            i <= shape@.len(),
            buffer@ == old(buffer)@ + dims_bytes(shape@.subrange(0, i as int)),
        decreases shape.len() - i,
    {
        encode_varint(shape[i] as u64, buffer);
        assert(shape@.subrange(0, i + 1).drop_last() =~= shape@.subrange(0, i as int));
        i = i + 1;
    }
    assert(shape@.subrange(0, shape@.len() as int) =~= shape@);
}

/// Reads `n` dimensions from `pos`.
pub fn decode_dims(input: &[u8], pos: usize, n: u64) -> (r: Result<(Vec<usize>, usize), FluxPackError>)
    requires
        pos <= input@.len(),
    ensures
        match parse_dims(input@, pos as nat, n as nat) {
            Ok((dims, p)) => r matches Ok((v, q)) && v@ == dims && q == p && q <= input@.len(),
            Err(e) => r == Err::<(Vec<usize>, usize), FluxPackError>(e),
        },
        r matches Ok((v, q)) ==> pos <= q <= input@.len() && v@.len() == n,
{
    let ilen = input.len();
    let mut shape: Vec<usize> = Vec::new();
    let mut cursor = pos;
    let mut i: u64 = 0;
    while i < n
        invariant
            ilen == input@.len(),
            i <= n,
            pos <= cursor <= input@.len(),
            shape@.len() == i,
            parse_dims(input@, pos as nat, i as nat) == Ok::<(Seq<usize>, nat), FluxPackError>((shape@, cursor as nat)),
        decreases n - i,
    {
        let (dim, consumed) = match decode_varint_at(input, cursor) {
            Ok(x) => x,
            Err(e) => {
                proof {
                    lemma_parse_dims_err(input@, pos as nat, (i + 1) as nat, n as nat);
                }
                return Err(e);
            },
        };
        shape.push(dim as usize);
        cursor = cursor + consumed;
        i = i + 1;
    }
    Ok((shape, cursor))
}

/// Once reading some dimensions failed, reading more fails the same way.
proof fn lemma_parse_dims_err(s: Seq<u8>, pos: nat, i: nat, n: nat)
    requires
        i <= n,
        parse_dims(s, pos, i) is Err,
    ensures
        parse_dims(s, pos, n) == parse_dims(s, pos, i),
    decreases n - i,
{
    if i < n {
        lemma_parse_dims_err(s, pos, i, (n - 1) as nat);
    }
}

/// Encode a tensor into a buffer.
pub fn encode_tensor(tensor: &Tensor, buffer: &mut Vec<u8>)
    ensures
        final(buffer)@ == old(buffer)@ + tensor_bytes(tensor.dtype, tensor.shape@, tensor.data@),
{
    buffer.push(tensor.dtype.tag());
    encode_varint(tensor.shape.len() as u64, buffer);
    encode_dims(&tensor.shape, buffer);
    push_bytes(buffer, tensor.data.as_slice());
    assert(buffer@ =~= old(buffer)@ + tensor_bytes(tensor.dtype, tensor.shape@, tensor.data@));
}

/// Decode a tensor from a buffer. Returns the tensor and the bytes it took.
pub fn decode_tensor(input: &[u8]) -> (r: Result<(Tensor, usize), FluxPackError>)
    requires
        input@.len() > 0,
        tensor_data_fits(input@),
    ensures
        match tensor_header(input@) {
            Err(e) => r == Err::<(Tensor, usize), FluxPackError>(e),
            Ok((dt, shape, p)) => {
                let n = shape_product(shape) * dtype_size(dt);
                r matches Ok((t, used)) && t.dtype == dt && t.shape@ == shape
                    && t.data@ == input@.subrange(p as int, (p + n) as int) && used == p + n
            },
        },
{
    let ilen = input.len();
    let (dtype, shape, cursor) = match decode_header(input) {
        Ok(x) => x,
        Err(e) => {
            return Err(e);
        },
    };
    let total_elements = product(shape.as_slice());
    let data_len = total_elements * dtype.element_size();
    let data = vstd::slice::slice_to_vec(vstd::slice::slice_subrange(input, cursor, cursor + data_len));
    Ok((Tensor { dtype, shape, data }, cursor + data_len))
}

/// Reads the dtype, dimension count and dimensions at the start of `input`.
pub fn decode_header(input: &[u8]) -> (r: Result<(TensorDtype, Vec<usize>, usize), FluxPackError>)
    requires
        input@.len() > 0,
    ensures
        match tensor_header(input@) {
            Err(e) => r == Err::<(TensorDtype, Vec<usize>, usize), FluxPackError>(e),
            Ok((dt, shape, p)) => r matches Ok((d, v, q)) && d == dt && v@ == shape && q == p && q <= input@.len(),
        },
{
    let dtype = match TensorDtype::from_tag(input[0]) {
        Some(d) => d,
        None => {
            return Err(FluxPackError::UnsupportedTensorDtype(input[0]));
        },
    };
    let (ndims, consumed) = match decode_varint_at(input, 1) {
        Ok(x) => x,
        Err(e) => {
            return Err(e);
        },
    };
    match decode_dims(input, 1 + consumed, ndims) {
        Ok((shape, cursor)) => Ok((dtype, shape, cursor)),
        Err(e) => Err(e),
    }
}


pub proof fn lemma_parse_dims_bytes(s: Seq<u8>, pos: nat, shape: Seq<usize>)
    requires
        holds_at(s, pos, dims_bytes(shape)),
    ensures
        parse_dims(s, pos, shape.len()) == Ok::<(Seq<usize>, nat), FluxPackError>((shape, pos + dims_bytes(shape).len())),
    decreases shape.len(),
{
    if shape.len() > 0 {
        let pre = dims_bytes(shape.drop_last());
        let last = varint_bytes(shape.last() as u64);
        lemma_holds_split(s, pos, pre, last);
        lemma_parse_dims_bytes(s, pos, shape.drop_last());
        lemma_varint_at(s, pos + pre.len(), shape.last() as u64);
        assert(((shape.last() as u64) as usize) == shape.last());
        assert(shape.drop_last().push(shape.last()) =~= shape);
    } else {
        assert(shape =~= Seq::<usize>::empty());
    }
}

/// Law: a tensor whose data has the size its shape and dtype call for reads back from its
/// bytes (whatever follows them) as the same dtype, shape and data, taking all its bytes.
pub proof fn law_tensor_roundtrip(dtype: TensorDtype, shape: Seq<usize>, data: Seq<u8>, rest: Seq<u8>)
    requires
        shape.len() <= u64::MAX,
        data.len() == shape_product(shape) * dtype_size(dtype),
    ensures
        ({
            let b = tensor_bytes(dtype, shape, data);
            let s = b + rest;
            &&& tensor_header(s) == Ok::<(TensorDtype, Seq<usize>, nat), FluxPackError>(
                (dtype, shape, (b.len() - data.len()) as nat))
            &&& s.subrange(b.len() - data.len(), b.len() as int) == data
        }),
{
    let b = tensor_bytes(dtype, shape, data);
    let s = b + rest;
    let nb = varint_bytes(shape.len() as u64);
    let db = dims_bytes(shape);
    assert(s == seq![dtype_tag(dtype)] + nb + db + (data + rest));
    assert(holds_at(s, 0, seq![dtype_tag(dtype)] + nb + db)) by {
        assert(s.subrange(0, (1 + nb.len() + db.len()) as int) =~= seq![dtype_tag(dtype)] + nb + db);
    }
    lemma_holds_split(s, 0, seq![dtype_tag(dtype)] + nb, db);
    lemma_holds_split(s, 0, seq![dtype_tag(dtype)], nb);
    lemma_varint_at(s, 1, shape.len() as u64);
    lemma_parse_dims_bytes(s, 1 + nb.len(), shape);
    assert(s[0] == dtype_tag(dtype));
    assert(s.subrange(b.len() - data.len(), b.len() as int) =~= data);
}

/// Whether a JSON array looks like a numeric tensor: at least 8 elements, all numbers.
pub fn is_tensor_candidate(arr: &[JsonValue]) -> (r: bool)
    ensures
        r == (arr@.len() >= 8 && forall|i: int| 0 <= i < arr@.len() ==> (#[trigger] arr@[i]@) is Num),
{
    if arr.len() < 8 {
        return false;
    }
    let mut i: usize = 0;
    while i < arr.len()
        invariant
            i <= arr@.len(),
            forall|j: int| 0 <= j < i ==> (#[trigger] arr@[j]@) is Num,
        decreases arr.len() - i,
    {
        match &arr[i] {
            JsonValue::Number(_) => {},
            _ => {
                assert(!(arr@[i as int]@ is Num));
                return false;
            },
        }
        i = i + 1;
    }
    true
}

/// The bytes of `le_bytes64` are 8 per value, value `i` at `8i`.
proof fn lemma_le_bytes64_at(v: Seq<u64>, i: int)
    requires
        0 <= i < v.len(),
    ensures
        le_bytes64(v).len() == 8 * v.len(),
        le_bytes64(v).subrange(8 * i, 8 * i + 8) == spec_u64_to_le_bytes(v[i]),
    decreases v.len(),
{
    lemma_auto_spec_u64_to_from_le_bytes();
    lemma_le_bytes64_len(v.drop_last());
    if i < v.len() - 1 {
        lemma_le_bytes64_at(v.drop_last(), i);
        assert(le_bytes64(v).subrange(8 * i, 8 * i + 8) =~= le_bytes64(v.drop_last()).subrange(8 * i, 8 * i + 8));
    } else {
        assert(le_bytes64(v).subrange(8 * i, 8 * i + 8) =~= spec_u64_to_le_bytes(v.last()));
    }
}

/// `le_bytes64` writes 8 bytes per value.
proof fn lemma_le_bytes64_len(v: Seq<u64>)
    ensures
        le_bytes64(v).len() == 8 * v.len(),
    decreases v.len(),
{
    lemma_auto_spec_u64_to_from_le_bytes();
    if v.len() > 0 {
        lemma_le_bytes64_len(v.drop_last());
    }
}

/// The signed integers of values that are all signed integers are the values' integers.
proof fn lemma_json_ints_all(vals: Seq<Json>)
    requires
        forall|i: int| 0 <= i < vals.len() ==> (#[trigger] vals[i]) matches Json::Num(JsonNumber::Int(_)),
    ensures
        json_ints(vals).len() == vals.len(),
        forall|i: int| 0 <= i < vals.len() ==> vals[i] == Json::Num(JsonNumber::Int(#[trigger] json_ints(vals)[i])),
    decreases vals.len(),
{
    if vals.len() > 0 {
        let pre = vals.drop_last();
        assert forall|i: int| 0 <= i < pre.len() implies (#[trigger] pre[i]) matches Json::Num(JsonNumber::Int(_)) by {
            assert(pre[i] == vals[i]);
        }
        lemma_json_ints_all(pre);
        assert(vals.last() == vals[vals.len() - 1]);
        assert forall|i: int| 0 <= i < vals.len() implies vals[i] == Json::Num(JsonNumber::Int(#[trigger] json_ints(vals)[i])) by {
            if i < vals.len() - 1 {
                assert(pre[i] == vals[i]);
                assert(json_ints(vals)[i] == json_ints(pre)[i]);
            }
        }
    }
}

/// The double bits of values that are all doubles are the values' bits.
proof fn lemma_json_doubles_all(vals: Seq<Json>)
    requires
        forall|i: int| 0 <= i < vals.len() ==> (#[trigger] vals[i]) matches Json::Num(JsonNumber::Float(_)),
    ensures
        json_doubles(vals).len() == vals.len(),
        forall|i: int| 0 <= i < vals.len() ==> vals[i] == Json::Num(JsonNumber::Float(#[trigger] json_doubles(vals)[i])),
    decreases vals.len(),
{
    if vals.len() > 0 {
        let pre = vals.drop_last();
        assert forall|i: int| 0 <= i < pre.len() implies (#[trigger] pre[i]) matches Json::Num(JsonNumber::Float(_)) by {
            assert(pre[i] == vals[i]);
        }
        lemma_json_doubles_all(pre);
        assert(vals.last() == vals[vals.len() - 1]);
        assert forall|i: int| 0 <= i < vals.len() implies vals[i] == Json::Num(JsonNumber::Float(#[trigger] json_doubles(vals)[i])) by {
            if i < vals.len() - 1 {
                assert(pre[i] == vals[i]);
                assert(json_doubles(vals)[i] == json_doubles(pre)[i]);
            }
        }
    }
}

/// Law: a tensor made from a non-empty JSON array of signed integers, or of finite doubles,
/// converts back to the same array. (A mix of numbers is held as singles, which lose
/// precision, and integers above `i64::MAX` are dropped.)
pub proof fn law_tensor_json_roundtrip(vals: Seq<Json>)
    requires
        vals.len() > 0,
        (forall|i: int| 0 <= i < vals.len() ==> (#[trigger] vals[i]) matches Json::Num(JsonNumber::Int(_)))
            || (forall|i: int| 0 <= i < vals.len() ==> ((#[trigger] vals[i]) matches Json::Num(JsonNumber::Float(b))
                && f64_bits_finite(b))),
    ensures
        tensor_from_json(vals) matches Some((d, bytes)) && tensor_json(d, bytes) == Json::Arr(vals),
{
    lemma_auto_spec_u64_to_from_le_bytes();
    if forall|i: int| 0 <= i < vals.len() ==> (#[trigger] vals[i]) matches Json::Num(JsonNumber::Int(_)) {
        assert forall|i: int| 0 <= i < vals.len() implies is_int_num(#[trigger] vals[i]) by {}
        lemma_json_ints_all(vals);
        let ints = json_ints(vals);
        let bits = i64_bits(ints);
        let bytes = le_bytes64(bits);
        lemma_le_bytes64_len(bits);
        assert(bytes.len() / 8 == vals.len());
        assert forall|i: int| 0 <= i < vals.len() implies #[trigger] tensor_element(TensorDtype::I64, bytes, i) == vals[i] by {
            lemma_le_bytes64_at(bits, i);
            let x = ints[i];
            assert(bits[i] == x as u64);
            assert((x as u64) as i64 == x) by (bit_vector);
        }
        assert(tensor_json(TensorDtype::I64, bytes)->Arr_0 =~= vals);
    } else {
        assert(!(forall|i: int| 0 <= i < vals.len() ==> is_int_num(#[trigger] vals[i]))) by {
            assert(vals[0] matches Json::Num(JsonNumber::Float(_)));
            assert(!is_int_num(vals[0]));
        }
        assert forall|i: int| 0 <= i < vals.len() implies is_float_num(#[trigger] vals[i]) by {}
        lemma_json_doubles_all(vals);
        let ds = json_doubles(vals);
        let bytes = le_bytes64(ds);
        lemma_le_bytes64_len(ds);
        assert(bytes.len() / 8 == vals.len());
        assert forall|i: int| 0 <= i < vals.len() implies #[trigger] tensor_element(TensorDtype::F64, bytes, i) == vals[i] by {
            lemma_le_bytes64_at(ds, i);
        }
        assert(tensor_json(TensorDtype::F64, bytes)->Arr_0 =~= vals);
    }
}

} // verus!
