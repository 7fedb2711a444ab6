//! ML data types: feature vectors, sparse tensors, timestamps and hyperparameters.
use vstd::prelude::*;
use crate::error::FluxPackError;
use crate::json::{Json, JsonNumber, JsonValue, values_view, fields_view};
use crate::tensor::{
    Tensor, TensorDtype, tensor_from_json, json_tensor_shape, dtype_size, dtype_tag, dtype_of_tag, shape_product, product_fits, product,
    le_bytes32, le_bytes64, i64_bits, push_le_bytes32, push_le_bytes64, dims_bytes, parse_dims,
    encode_dims, decode_dims, tensor_json, lemma_parse_dims_bytes,
};
use crate::varint::{
    encode_varint, decode_varint, decode_varint_at, encode_signed_varint, decode_signed_varint_at,
    varint_bytes, varint_parse, signed_varint_bytes, signed_varint_parse, lemma_signed_varint_roundtrip,
};
use crate::wire::push_bytes;
use crate::roundtrip::{holds_at, lemma_holds_split, lemma_holds_skip, lemma_varint_at};
use vstd::bytes::{spec_u32_to_le_bytes, lemma_auto_spec_u32_to_from_le_bytes};

verus! {

/// A feature vector: shape, dtype and flat little-endian data.
///
/// Wire format: `ndims(varint) | shape[ndims](varint each) | dtype(byte) | data(flat bytes)`.
pub struct FeatureVector {
    pub shape: Vec<usize>,
    pub dtype: TensorDtype,
    pub data: Vec<u8>,
}

impl FeatureVector {

    /// Create from a JSON array of numbers, as `Tensor::from_json_array` does.
    pub fn from_json(arr: &[JsonValue], shape: Option<Vec<usize>>) -> (r: Result<Self, FluxPackError>)
        ensures
            match tensor_from_json(values_view(arr@)) {
                None => r matches Err(FluxPackError::ColumnarError(m)) && m@ == "empty tensor"@,
                Some((d, bytes)) => r matches Ok(fv) && fv.dtype == d && fv.data@ == bytes
                    && fv.shape@ == json_tensor_shape(arr@.len(), shape),
            },
    {
        let tensor = match Tensor::from_json_array(arr, shape) {
            Ok(t) => t,
            Err(e) => {
                return Err(e);
            },
        };
        Ok(FeatureVector { shape: tensor.shape, dtype: tensor.dtype, data: tensor.data })
    }

    /// Create from singles, each given by its IEEE-754 bits.
    pub fn from_f32(data: &[u32], shape: Vec<usize>) -> (fv: Self)
        ensures
            fv.dtype == TensorDtype::F32,
            fv.shape@ == shape@,
            fv.data@ == le_bytes32(data@),
    {
        let mut byte_data: Vec<u8> = Vec::new();
        push_le_bytes32(data, &mut byte_data);
        FeatureVector { shape, dtype: TensorDtype::F32, data: byte_data }
    }

    /// Create from doubles, each given by its IEEE-754 bits.
    pub fn from_f64(data: &[u64], shape: Vec<usize>) -> (fv: Self)
        ensures
            fv.dtype == TensorDtype::F64,
            fv.shape@ == shape@,
            fv.data@ == le_bytes64(data@),
    {
        let mut byte_data: Vec<u8> = Vec::new();
        push_le_bytes64(data, &mut byte_data);
        FeatureVector { shape, dtype: TensorDtype::F64, data: byte_data }
    }

    /// Create from an i64 slice.
    pub fn from_i64(data: &[i64], shape: Vec<usize>) -> (fv: Self)
        ensures
            fv.dtype == TensorDtype::I64,
            fv.shape@ == shape@,
            fv.data@ == le_bytes64(i64_bits(data@)),
    {
        let t = Tensor::from_i64(data, shape);
        FeatureVector { shape: t.shape, dtype: t.dtype, data: t.data }
    }

    /// Total number of elements.
    pub fn len(&self) -> (n: usize)
        requires
            product_fits(self.shape@),
        ensures
            n == shape_product(self.shape@),
    {
        product(self.shape.as_slice())
    }

    /// Whether the feature vector holds no data.
    pub fn is_empty(&self) -> (r: bool)
        ensures
            r == (self.data@.len() == 0),
    {
        self.data.len() == 0
    }

    /// Convert to a tensor with the same dtype, shape and data.
    pub fn to_tensor(&self) -> (t: Tensor)
        ensures
            t.dtype == self.dtype,
            t.shape@ == self.shape@,
            t.data@ == self.data@,
    {
        Tensor { dtype: self.dtype, shape: copy_usizes(&self.shape), data: copy_bytes(&self.data) }
    }

    /// Decode back to a JSON array, one number per element.
    pub fn to_json(&self) -> (r: Result<JsonValue, FluxPackError>)
        requires
            self.data@.len() % dtype_size(self.dtype) == 0,
        ensures
            r matches Ok(v) && v@ == tensor_json(self.dtype, self.data@),
    {
        self.to_tensor().to_json()
    }
}

/// A copy of a vector of sizes.
fn copy_usizes(v: &Vec<usize>) -> (r: Vec<usize>)
    ensures
        r@ == v@,
{
    let mut r: Vec<usize> = Vec::new();
    let mut i: usize = 0;
    while i < v.len()
        invariant
            i <= v@.len(),
            r@ == v@.subrange(0, i as int),
        decreases v.len() - i,
    {
        r.push(v[i]);
        i = i + 1;
    }
    assert(v@.subrange(0, v@.len() as int) =~= v@);
    r
}

/// A copy of a byte vector.
fn copy_bytes(v: &Vec<u8>) -> (r: Vec<u8>)
    ensures
        r@ == v@,
{
    vstd::slice::slice_to_vec(v.as_slice())
}

/// A feature vector on the wire: dimension count, dimensions, dtype tag, data.
pub open spec fn feature_vector_bytes(dtype: TensorDtype, shape: Seq<usize>, data: Seq<u8>) -> Seq<u8> {
    varint_bytes(shape.len() as u64) + dims_bytes(shape) + seq![dtype_tag(dtype)] + data
}

/// Reading a feature vector header: the shape, the dtype and the position of the data.
pub open spec fn feature_vector_header(s: Seq<u8>) -> Result<(Seq<usize>, TensorDtype, nat), FluxPackError> {
    match varint_parse(s) {
        Ok((nd, c)) => match parse_dims(s, c, nd as nat) {
            Ok((dims, p)) => if p >= s.len() {
                Err(FluxPackError::BufferOverrun)
            } else {
                match dtype_of_tag(s[p as int]) {
                    Some(dt) => Ok((dims, dt, p + 1)),
                    None => Err(FluxPackError::UnsupportedTensorDtype(s[p as int])),
                }
            },
            Err(e) => Err(e),
        },
        Err(e) => Err(e),
    }
}

/// The data after a feature vector header fits in `s`, and its size in a `usize`.
pub open spec fn feature_vector_fits(s: Seq<u8>) -> bool {
    match feature_vector_header(s) {
        Ok((shape, dt, p)) => product_fits(shape) && shape_product(shape) * dtype_size(dt) <= usize::MAX
            && p + shape_product(shape) * dtype_size(dt) <= s.len(),
        Err(_) => true,
    }
}

/// Encode a feature vector into a buffer.
pub fn encode_feature_vector(fv: &FeatureVector, buffer: &mut Vec<u8>)
    ensures
        final(buffer)@ == old(buffer)@ + feature_vector_bytes(fv.dtype, fv.shape@, fv.data@),
{
    encode_varint(fv.shape.len() as u64, buffer);
    encode_dims(&fv.shape, buffer);
    buffer.push(fv.dtype.tag());
    push_bytes(buffer, fv.data.as_slice());
    assert(buffer@ =~= old(buffer)@ + feature_vector_bytes(fv.dtype, fv.shape@, fv.data@));
}

/// Decode a feature vector from a buffer; returns it and the bytes it took.
pub fn decode_feature_vector(input: &[u8]) -> (r: Result<(FeatureVector, usize), FluxPackError>)
    requires
        feature_vector_fits(input@),
    ensures
        match feature_vector_header(input@) {
            Err(e) => r == Err::<(FeatureVector, usize), FluxPackError>(e),
            Ok((shape, dt, p)) => {
                let n = shape_product(shape) * dtype_size(dt);
                r matches Ok((fv, used)) && fv.dtype == dt && fv.shape@ == shape
                    && fv.data@ == input@.subrange(p as int, (p + n) as int) && used == p + n
            },
        },
{
    let ilen = input.len();
    let (ndims, consumed) = match decode_varint_at(input, 0) {
        Ok(x) => x,
        Err(e) => {
            assert(input@.skip(0) =~= input@);
            return Err(e);
        },
    };
    assert(input@.skip(0) =~= input@);
    let (shape, cursor) = match decode_dims(input, consumed, ndims) {
        Ok(x) => x,
        Err(e) => {
            return Err(e);
        },
    };
    if cursor >= ilen {
        return Err(FluxPackError::BufferOverrun);
    }
    let dtype = match TensorDtype::from_tag(input[cursor]) {
        Some(d) => d,
        None => {
            return Err(FluxPackError::UnsupportedTensorDtype(input[cursor]));
        },
    };
    let start = cursor + 1;
    let total_elements = product(shape.as_slice());
    let data_len = total_elements * dtype.element_size();
    let data = vstd::slice::slice_to_vec(vstd::slice::slice_subrange(input, start, start + data_len));
    Ok((FeatureVector { shape, dtype, data }, start + data_len))
}

/// Law: a feature vector whose data has the size its shape and dtype call for reads back
/// from its bytes as the same shape, dtype and data.
pub proof fn law_feature_vector_roundtrip(dtype: TensorDtype, shape: Seq<usize>, data: Seq<u8>, rest: Seq<u8>)
    requires
        shape.len() <= u64::MAX,
        data.len() == shape_product(shape) * dtype_size(dtype),
    ensures
        ({
            let b = feature_vector_bytes(dtype, shape, data);
            let s = b + rest;
            &&& feature_vector_header(s) == Ok::<(Seq<usize>, TensorDtype, nat), FluxPackError>(
                (shape, dtype, (b.len() - data.len()) as nat))
            &&& s.subrange(b.len() - data.len(), b.len() as int) == data
        }),
{
    let b = feature_vector_bytes(dtype, shape, data);
    let s = b + rest;
    let nb = varint_bytes(shape.len() as u64);
    let db = dims_bytes(shape);
    assert(s == nb + db + seq![dtype_tag(dtype)] + (data + rest));
    assert(holds_at(s, 0, nb + db + seq![dtype_tag(dtype)])) by {
        assert(s.subrange(0, (nb.len() + db.len() + 1) as int) =~= nb + db + seq![dtype_tag(dtype)]);
    }
    lemma_holds_split(s, 0, nb + db, seq![dtype_tag(dtype)]);
    lemma_holds_split(s, 0, nb, db);
    lemma_varint_at(s, 0, shape.len() as u64);
    assert(s.skip(0) =~= s);
    lemma_parse_dims_bytes(s, nb.len(), shape);
    assert(s[(nb.len() + db.len()) as int] == dtype_tag(dtype));
    assert(s.subrange(b.len() - data.len(), b.len() as int) =~= data);
}

/// A sparse tensor: the non-zero elements only, each with its index.
///
/// Wire format: `dtype(byte) | ndims(varint) | shape[ndims] | nnz(varint) |
/// indices[nnz](varint each component) | values[nnz]`.
pub struct SparseTensor {
    pub dtype: TensorDtype,
    pub shape: Vec<usize>,
    pub indices: Vec<Vec<usize>>,
    pub values: Vec<u8>,
}

/// The indices of a sparse tensor, each as a sequence.
pub open spec fn indices_view(v: Seq<Vec<usize>>) -> Seq<Seq<usize>> {
    Seq::new(v.len(), |i: int| v[i]@)
}

/// Whether a single with these bits is not zero (NaN counts as non-zero).
pub open spec fn f32_nonzero(b: u32) -> bool {
    b & 0x7FFF_FFFF != 0
}

/// The indices and values of the non-zero singles among the first `n` of `dense`.
pub open spec fn sparse_of_dense(dense: Seq<u32>, n: nat) -> (Seq<Seq<usize>>, Seq<u8>)
    decreases n,
{
    if n == 0 || n > dense.len() {
        (Seq::empty(), Seq::empty())
    } else {
        let (ix, vs) = sparse_of_dense(dense, (n - 1) as nat);
        if f32_nonzero(dense[n - 1]) {
            (ix.push(seq![(n - 1) as usize]), vs + le_bytes32(seq![dense[n - 1]]))
        } else {
            (ix, vs)
        }
    }
}

impl SparseTensor {
    /// Create from dense singles (each given by its IEEE-754 bits), keeping the non-zero ones.
    pub fn from_dense_f32(dense: &[u32], shape: Vec<usize>) -> (t: Self)
        ensures
            t.dtype == TensorDtype::F32,
            t.shape@ == shape@,
            indices_view(t.indices@) == sparse_of_dense(dense@, dense@.len()).0,
            t.values@ == sparse_of_dense(dense@, dense@.len()).1,
    {
        let mut indices: Vec<Vec<usize>> = Vec::new();
        let mut values: Vec<u8> = Vec::new();
        let mut i: usize = 0;
        while i < dense.len()
            invariant
                i <= dense@.len(),
                indices_view(indices@) == sparse_of_dense(dense@, i as nat).0,
                values@ == sparse_of_dense(dense@, i as nat).1,
            decreases dense.len() - i,
        {
            let val = dense[i];
            if val & 0x7FFF_FFFF != 0 {
                let mut one: Vec<usize> = Vec::new();
                one.push(i);
                indices.push(one);
                let single = [val];
                push_le_bytes32(&single, &mut values);
                assert(single@ =~= seq![dense@[i as int]]);
            }
            i = i + 1;
            assert(indices_view(indices@) =~= sparse_of_dense(dense@, i as nat).0);
        }
        SparseTensor { dtype: TensorDtype::F32, shape, indices, values }
    }

    /// Create from index-value pairs.
    pub fn from_sparse(dtype: TensorDtype, shape: Vec<usize>, indices: Vec<Vec<usize>>, values: Vec<u8>) -> (t: Self)
        ensures
            t.dtype == dtype,
            t.shape == shape,
            t.indices == indices,
            t.values == values,
    {
        SparseTensor { dtype, shape, indices, values }
    }

    /// Total number of elements (zeros included).
    pub fn dense_size(&self) -> (n: usize)
        requires
            product_fits(self.shape@),
        ensures
            n == shape_product(self.shape@),
    {
        product(self.shape.as_slice())
    }

    /// Number of non-zero elements.
    pub fn nnz(&self) -> (n: usize)
        ensures
            n == self.indices@.len(),
    {
        self.indices.len()
    }

    /// Whether sparse encoding is beneficial: more than half the elements are zeros.
    pub fn is_beneficial(&self) -> (r: bool)
        requires
            product_fits(self.shape@),
        ensures
            r == (shape_product(self.shape@) > 0 && 2 * self.indices@.len() < shape_product(self.shape@)),
    {
        let total = self.dense_size();
        let nnz = self.nnz();
        total > 0 && nnz < total && total - nnz > nnz
    }
}

/// Each index's components as varints, one index after the other.
pub open spec fn indices_bytes(indices: Seq<Seq<usize>>) -> Seq<u8>
    decreases indices.len(),
{
    if indices.len() == 0 {
        Seq::empty()
    } else {
        indices_bytes(indices.drop_last()) + dims_bytes(indices.last())
    }
}

/// A sparse tensor on the wire.
pub open spec fn sparse_bytes(dtype: TensorDtype, shape: Seq<usize>, indices: Seq<Seq<usize>>, values: Seq<u8>) -> Seq<u8> {
    seq![dtype_tag(dtype)] + varint_bytes(shape.len() as u64) + dims_bytes(shape)
        + varint_bytes(indices.len() as u64) + indices_bytes(indices) + values
}

/// Reading `n` indices of `nd` components each from `pos`: the indices and the position after.
pub open spec fn parse_indices(s: Seq<u8>, pos: nat, n: nat, nd: nat) -> Result<(Seq<Seq<usize>>, nat), FluxPackError>
    decreases n,
{
    if n == 0 {
        Ok((Seq::empty(), pos))
    } else {
        match parse_indices(s, pos, (n - 1) as nat, nd) {
            Ok((ix, p)) => match parse_dims(s, p, nd) {
                Ok((idx, q)) => Ok((ix.push(idx), q)),
                Err(e) => Err(e),
            },
            Err(e) => Err(e),
        }
    }
}

/// Reading a sparse tensor header from the start of `s` (not empty): dtype, shape,
/// indices, and the position of the values.
pub open spec fn sparse_header(s: Seq<u8>) -> Result<(TensorDtype, Seq<usize>, Seq<Seq<usize>>, nat), FluxPackError> {
    match dtype_of_tag(s[0]) {
        None => Err(FluxPackError::UnsupportedTensorDtype(s[0])),
        Some(dt) => match varint_parse(s.skip(1)) {
            Ok((nd, c)) => match parse_dims(s, 1 + c, nd as nat) {
                Ok((dims, p)) => match varint_parse(s.skip(p as int)) {
                    Ok((nnz, c2)) => match parse_indices(s, p + c2, nnz as nat, nd as nat) {
                        Ok((ix, q)) => Ok((dt, dims, ix, q)),
                        Err(e) => Err(e),
                    },
                    Err(e) => Err(e),
                },
                Err(e) => Err(e),
            },
            Err(e) => Err(e),
        },
    }
}

/// The values after a sparse header fit in `s`, and their size in a `usize`.
pub open spec fn sparse_values_fit(s: Seq<u8>) -> bool {
    match sparse_header(s) {
        Ok((dt, shape, ix, p)) => ix.len() * dtype_size(dt) <= usize::MAX && p + ix.len() * dtype_size(dt) <= s.len(),
        Err(_) => true,
    }
}

/// Encode a sparse tensor into a buffer.
pub fn encode_sparse_tensor(sparse: &SparseTensor, buffer: &mut Vec<u8>)
    ensures
        final(buffer)@ == old(buffer)@ + sparse_bytes(sparse.dtype, sparse.shape@, indices_view(sparse.indices@), sparse.values@),
{
    buffer.push(sparse.dtype.tag());
    encode_varint(sparse.shape.len() as u64, buffer);
    encode_dims(&sparse.shape, buffer);
    let nnz = sparse.nnz();
    encode_varint(nnz as u64, buffer);
    let ghost mid = buffer@;
    let ghost iv = indices_view(sparse.indices@);
    let mut k: usize = 0;
    while k < sparse.indices.len()
        invariant
            k <= sparse.indices@.len(),
            iv == indices_view(sparse.indices@),
            buffer@ == mid + indices_bytes(iv.subrange(0, k as int)),
        decreases sparse.indices.len() - k,
    {
        encode_dims(&sparse.indices[k], buffer);
        assert(iv.subrange(0, k + 1).drop_last() =~= iv.subrange(0, k as int));
        k = k + 1;
    }
    assert(iv.subrange(0, iv.len() as int) =~= iv);
    push_bytes(buffer, sparse.values.as_slice());
    assert(buffer@ =~= old(buffer)@ + sparse_bytes(sparse.dtype, sparse.shape@, iv, sparse.values@));
}

/// Once reading some indices failed, reading more fails the same way.
proof fn lemma_parse_indices_err(s: Seq<u8>, pos: nat, i: nat, n: nat, nd: nat)
    requires
        i <= n,
        parse_indices(s, pos, i, nd) is Err,
    ensures
        parse_indices(s, pos, n, nd) == parse_indices(s, pos, i, nd),
    decreases n - i,
{
    if i < n {
        lemma_parse_indices_err(s, pos, i, (n - 1) as nat, nd);
    }
}

/// Decode a sparse tensor from a buffer; returns it and the bytes it took.
pub fn decode_sparse_tensor(input: &[u8]) -> (r: Result<(SparseTensor, usize), FluxPackError>)
    requires
        input@.len() > 0,
        sparse_values_fit(input@),
    ensures
        match sparse_header(input@) {
            Err(e) => r == Err::<(SparseTensor, usize), FluxPackError>(e),
            Ok((dt, shape, ix, p)) => {
                let n = ix.len() * dtype_size(dt);
                r matches Ok((t, used)) && t.dtype == dt && t.shape@ == shape && indices_view(t.indices@) == ix
                    && t.values@ == input@.subrange(p as int, (p + n) as int) && used == p + n
            },
        },
{
    let ilen = input.len();
    let dtype = match TensorDtype::from_tag(input[0]) {
        Some(d) => d,
        None => {
            return Err(FluxPackError::UnsupportedTensorDtype(input[0]));
        },
    };
    let (ndims, consumed) = match decode_varint_at(input, 1) {
        Ok(x) => x,
        Err(e) => {
            return Err(e);
        },
    };
    let (shape, cursor) = match decode_dims(input, 1 + consumed, ndims) {
        Ok(x) => x,
        Err(e) => {
            return Err(e);
        },
    };
    let (nnz, consumed2) = match decode_varint_at(input, cursor) {
        Ok(x) => x,
        Err(e) => {
            return Err(e);
        },
    };
    let start = cursor + consumed2;
    let mut pos = start;
    let mut indices: Vec<Vec<usize>> = Vec::new();
    let mut k: u64 = 0;
    assert(indices_view(indices@) =~= Seq::<Seq<usize>>::empty());
    assert(sparse_header(input@) == match parse_indices(input@, start as nat, nnz as nat, ndims as nat) {
        Ok((ix, q)) => Ok((dtype, shape@, ix, q)),
        Err(e) => Err::<(TensorDtype, Seq<usize>, Seq<Seq<usize>>, nat), FluxPackError>(e),
    });
    while k < nnz
        invariant
            sparse_header(input@) == match parse_indices(input@, start as nat, nnz as nat, ndims as nat) {
                Ok((ix, q)) => Ok((dtype, shape@, ix, q)),
                Err(e) => Err::<(TensorDtype, Seq<usize>, Seq<Seq<usize>>, nat), FluxPackError>(e),
            },
            sparse_values_fit(input@),
            ilen == input@.len(),
            k <= nnz,
            indices@.len() == k,
            start <= pos <= input@.len(),
            parse_indices(input@, start as nat, k as nat, ndims as nat)
                == Ok::<(Seq<Seq<usize>>, nat), FluxPackError>((indices_view(indices@), pos as nat)),
        decreases nnz - k,
    {
        let (idx, next) = match decode_dims(input, pos, ndims) {
            Ok(x) => x,
            Err(e) => {
                assert(parse_indices(input@, start as nat, (k + 1) as nat, ndims as nat) == Err::<(Seq<Seq<usize>>, nat), FluxPackError>(e));
                proof {
                    lemma_parse_indices_err(input@, start as nat, (k + 1) as nat, nnz as nat, ndims as nat);
                }
                return Err(e);
            },
        };
        let ghost before = indices@;
        indices.push(idx);
        assert(indices_view(indices@) =~= indices_view(before).push(idx@));
        pos = next;
        k = k + 1;
    }
    assert(indices_view(indices@).len() == indices@.len());
    let data_len = indices.len() * dtype.element_size();
    let values = vstd::slice::slice_to_vec(vstd::slice::slice_subrange(input, pos, pos + data_len));
    Ok((SparseTensor { dtype, shape, indices, values }, pos + data_len))
}

/// A timestamp on the wire: its milliseconds as a varint.
pub fn encode_timestamp(timestamp_ms: u64, buffer: &mut Vec<u8>)
    ensures
        final(buffer)@ == old(buffer)@ + varint_bytes(timestamp_ms),
{
    encode_varint(timestamp_ms, buffer);
}

/// Decode a timestamp: its milliseconds and the bytes they took.
pub fn decode_timestamp(input: &[u8]) -> (r: Result<(u64, usize), FluxPackError>)
    ensures
        match r {
            Ok((v, n)) => varint_parse(input@) == Ok::<(u64, nat), FluxPackError>((v, n as nat)),
            Err(e) => varint_parse(input@) == Err::<(u64, nat), FluxPackError>(e),
        },
{
    decode_varint(input)
}

/// The difference between timestamps `i` and `i - 1`, each read as an `i64`.
pub open spec fn ts_delta(ts: Seq<u64>, i: int) -> int {
    (ts[i] as i64) - (ts[i - 1] as i64)
}

/// Every difference between neighbouring timestamps fits in an `i64`.
pub open spec fn ts_deltas_fit(ts: Seq<u64>) -> bool {
    forall|i: int| 1 <= i < ts.len() ==> i64::MIN <= #[trigger] ts_delta(ts, i) <= i64::MAX
}

/// The signed varints of the differences from timestamp 1 to `n - 1`.
pub open spec fn ts_deltas_bytes(ts: Seq<u64>, n: nat) -> Seq<u8>
    decreases n,
{
    if n <= 1 || n > ts.len() {
        Seq::empty()
    } else {
        ts_deltas_bytes(ts, (n - 1) as nat) + signed_varint_bytes(ts_delta(ts, n - 1) as i64)
    }
}

/// Timestamps on the wire: the first, the count, then each difference to the one before.
pub open spec fn timestamps_bytes(ts: Seq<u64>) -> Seq<u8> {
    varint_bytes(ts[0]) + varint_bytes(ts.len() as u64) + ts_deltas_bytes(ts, ts.len())
}

/// Encode timestamps as a base and deltas; an empty list is an error and writes nothing.
pub fn encode_timestamps_deltas(timestamps_ms: &[u64], buffer: &mut Vec<u8>) -> (r: Result<(), FluxPackError>)
    requires
        ts_deltas_fit(timestamps_ms@),
    ensures
        timestamps_ms@.len() == 0 ==> final(buffer)@ == old(buffer)@ && (r matches Err(FluxPackError::ColumnarError(m))
            && m@ == "empty timestamps"@),
        timestamps_ms@.len() > 0 ==> r is Ok && final(buffer)@ == old(buffer)@ + timestamps_bytes(timestamps_ms@),
{
    if timestamps_ms.len() == 0 {
        return Err(FluxPackError::ColumnarError(String::from_str("empty timestamps")));
    }
    let ghost ts = timestamps_ms@;
    encode_varint(timestamps_ms[0], buffer);
    encode_varint(timestamps_ms.len() as u64, buffer);
    let ghost mid = buffer@;
    let mut prev: i64 = timestamps_ms[0] as i64;
    let mut i: usize = 1;
    while i < timestamps_ms.len()
        invariant
            ts == timestamps_ms@,
            ts_deltas_fit(ts),
            1 <= i <= ts.len(),
            prev == ts[i - 1] as i64,
            buffer@ == mid + ts_deltas_bytes(ts, i as nat),
        decreases timestamps_ms.len() - i,
    {
        let ts_i = timestamps_ms[i];
        assert(i64::MIN <= ts_delta(ts, i as int) <= i64::MAX);
        let delta = ts_i as i64 - prev;
        encode_signed_varint(delta, buffer);
        prev = ts_i as i64;
        i = i + 1;
    }
    Ok(())
}

/// Reading `k` more deltas from `pos`, from the timestamp `cur`: all the timestamps and the
/// position after the last delta read.
pub open spec fn parse_ts_deltas(s: Seq<u8>, pos: nat, k: nat, cur: i64, acc: Seq<u64>) -> Result<(Seq<u64>, nat), FluxPackError>
    decreases k,
{
    if k == 0 {
        Ok((acc, pos))
    } else {
        match signed_varint_parse(s.skip(pos as int)) {
            Ok((d, c)) => {
                let next = vstd::wrapping::i64_specs::wrapping_add(cur, d);
                parse_ts_deltas(s, pos + c, (k - 1) as nat, next, acc.push(next as u64))
            },
            Err(e) => Err(e),
        }
    }
}

/// What `decode_timestamps_deltas` gives on `s`: `count` timestamps, that is none when the
/// count is 0, else the base, then one timestamp per delta.
pub open spec fn parse_timestamps(s: Seq<u8>) -> Result<(Seq<u64>, nat), FluxPackError> {
    match varint_parse(s) {
        Ok((base, c1)) => match varint_parse(s.skip(c1 as int)) {
            Ok((count, c2)) => if count == 0 {
                Ok((Seq::empty(), c1 + c2))
            } else {
                parse_ts_deltas(s, c1 + c2, (count - 1) as nat, base as i64, seq![base])
            },
            Err(e) => Err(e),
        },
        Err(e) => Err(e),
    }
}

/// Decode delta-encoded timestamps; returns them and the bytes they took.
pub fn decode_timestamps_deltas(input: &[u8]) -> (r: Result<(Vec<u64>, usize), FluxPackError>)
    ensures
        match parse_timestamps(input@) {
            Ok((ts, n)) => r matches Ok((v, used)) && v@ == ts && used == n,
            Err(e) => r == Err::<(Vec<u64>, usize), FluxPackError>(e),
        },
{
    let ilen = input.len();
    assert(input@.skip(0) =~= input@);
    let (base, c1) = match decode_varint_at(input, 0) {
        Ok(x) => x,
        Err(e) => {
            return Err(e);
        },
    };
    let (count, c2) = match decode_varint_at(input, c1) {
        Ok(x) => x,
        Err(e) => {
            return Err(e);
        },
    };
    let mut cursor = c1 + c2;
    let mut timestamps: Vec<u64> = Vec::new();
    if count == 0 {
        return Ok((timestamps, cursor));
    }
    timestamps.push(base);
    let mut current: i64 = base as i64;
    let n: u64 = count - 1;
    let mut k: u64 = 0;
    while k < n
        invariant
            ilen == input@.len(),
            k <= n,
            cursor <= input@.len(),
            parse_timestamps(input@) == parse_ts_deltas(input@, cursor as nat, (n - k) as nat, current, timestamps@),
        decreases n - k,
    {
        let (delta, consumed) = match decode_signed_varint_at(input, cursor) {
            Ok(x) => x,
            Err(e) => {
                return Err(e);
            },
        };
        cursor = cursor + consumed;
        current = current.wrapping_add(delta);
        timestamps.push(current as u64);
        k = k + 1;
    }
    Ok((timestamps, cursor))
}


/// The product of the dimensions from `dim` on (the stride of dimension `dim - 1`).
pub fn shape_stride(shape: &[usize], dim: usize) -> (n: usize)
    requires
        dim <= shape@.len(),
        product_fits(shape@.subrange(dim as int, shape@.len() as int)),
    ensures
        n == shape_product(shape@.subrange(dim as int, shape@.len() as int)),
{
    product(vstd::slice::slice_subrange(shape, dim, shape.len()))
}

/// The flat position of an index's first `n` components.
pub open spec fn flat_index(shape: Seq<usize>, idx: Seq<usize>, n: nat) -> nat
    decreases n,
{
    if n == 0 {
        0
    } else {
        flat_index(shape, idx, (n - 1) as nat)
            + (idx[n - 1] as nat) * shape_product(shape.subrange(n as int, shape.len() as int))
    }
}

/// Computing the flat position of `idx` stays within `usize`.
pub open spec fn flat_index_fits(shape: Seq<usize>, idx: Seq<usize>) -> bool {
    &&& idx.len() <= shape.len()
    &&& forall|n: int| 1 <= n <= idx.len() ==> {
        &&& product_fits(#[trigger] shape.subrange(n, shape.len() as int))
        &&& (idx[n - 1] as nat) * shape_product(shape.subrange(n, shape.len() as int)) <= usize::MAX
        &&& flat_index(shape, idx, n as nat) <= usize::MAX
    }
}

/// Every index of the sparse tensor lands inside the dense data, and its value is present.
pub open spec fn sparse_dense_fits(dtype: TensorDtype, shape: Seq<usize>, ix: Seq<Seq<usize>>, values: Seq<u8>) -> bool {
    let e = dtype_size(dtype);
    let total = shape_product(shape);
    &&& product_fits(shape)
    &&& total * e <= usize::MAX
    &&& ix.len() * e <= values.len()
    &&& forall|k: int| 0 <= k < ix.len() ==> {
        &&& flat_index_fits(shape, #[trigger] ix[k])
        &&& (flat_index(shape, ix[k], ix[k].len()) + 1) * e <= total * e
    }
}

/// The dense bytes after placing the first `k` values of a sparse tensor into zeros.
pub open spec fn dense_after(dtype: TensorDtype, shape: Seq<usize>, ix: Seq<Seq<usize>>, values: Seq<u8>, k: nat) -> Seq<u8>
    decreases k,
{
    let e = dtype_size(dtype);
    if k == 0 {
        Seq::new(shape_product(shape) * e, |i: int| 0u8)
    } else {
        let prev = dense_after(dtype, shape, ix, values, (k - 1) as nat);
        let off = flat_index(shape, ix[k - 1], ix[k - 1].len()) * e;
        prev.subrange(0, off as int) + values.subrange((k - 1) * e, (k * e) as int)
            + prev.subrange((off + e) as int, prev.len() as int)
    }
}

/// The flat position of an index.
fn flat_position(shape: &Vec<usize>, idx: &Vec<usize>) -> (r: usize)
    requires
        flat_index_fits(shape@, idx@),
    ensures
        r == flat_index(shape@, idx@, idx@.len()),
{
    let mut acc: usize = 0;
    let mut d: usize = 0;
    while d < idx.len()
        invariant
            d <= idx@.len(),
            flat_index_fits(shape@, idx@),
            acc == flat_index(shape@, idx@, d as nat),
        decreases idx.len() - d,
    {
        assert(product_fits(shape@.subrange(d + 1, shape@.len() as int)));
        let stride = shape_stride(shape.as_slice(), d + 1);
        acc = acc + idx[d] * stride;
        d = d + 1;
    }
    acc
}

/// Convert a sparse tensor to a dense one: zeros, with each value placed at its index.
pub fn sparse_to_dense(sparse: &SparseTensor) -> (t: Tensor)
    requires
        sparse_dense_fits(sparse.dtype, sparse.shape@, indices_view(sparse.indices@), sparse.values@),
    ensures
        t.dtype == sparse.dtype,
        t.shape@ == sparse.shape@,
        t.data@ == dense_after(sparse.dtype, sparse.shape@, indices_view(sparse.indices@), sparse.values@,
            sparse.indices@.len()),
{
    let ghost ix = indices_view(sparse.indices@);
    let total_elements = sparse.dense_size();
    let elem_size = sparse.dtype.element_size();
    let mut dense_data: Vec<u8> = vec![0u8; total_elements * elem_size];
    assert(dense_data@ =~= dense_after(sparse.dtype, sparse.shape@, ix, sparse.values@, 0));
    let mut k: usize = 0;
    while k < sparse.indices.len()
        invariant
            ix == indices_view(sparse.indices@),
            sparse_dense_fits(sparse.dtype, sparse.shape@, ix, sparse.values@),
            k <= sparse.indices@.len(),
            elem_size == dtype_size(sparse.dtype),
            total_elements == shape_product(sparse.shape@),
            dense_data@ == dense_after(sparse.dtype, sparse.shape@, ix, sparse.values@, k as nat),
            dense_data@.len() == total_elements * elem_size,
        decreases sparse.indices.len() - k,
    {
        assert(ix[k as int] == sparse.indices@[k as int]@);
        assert(flat_index_fits(sparse.shape@, ix[k as int]));
        let flat = flat_position(&sparse.shape, &sparse.indices[k]);
        assert((flat + 1) * elem_size <= total_elements * elem_size);
        assert(flat * elem_size + elem_size <= total_elements * elem_size) by (nonlinear_arith)
            requires (flat + 1) * elem_size <= total_elements * elem_size;
        assert((k + 1) * elem_size <= sparse.values@.len()) by (nonlinear_arith)
            requires k < ix.len(), ix.len() * elem_size <= sparse.values@.len();
        assert(k * elem_size + elem_size == (k + 1) * elem_size) by (nonlinear_arith);
        let vlen = sparse.values.len();
        let byte_offset = flat * elem_size;
        let value_offset = k * elem_size;
        let ghost prev = dense_data@;
        let mut j: usize = 0;
        while j < elem_size
            invariant
                j <= elem_size,
                byte_offset + elem_size <= prev.len(),
                prev.len() == total_elements * elem_size,
                total_elements * elem_size <= usize::MAX,
                value_offset + elem_size <= vlen,
                vlen == sparse.values@.len(),
                dense_data@.len() == prev.len(),
                forall|x: int| 0 <= x < prev.len() ==> #[trigger] dense_data@[x] == if byte_offset <= x < byte_offset + j {
                    sparse.values@[value_offset + x - byte_offset]
                } else {
                    prev[x]
                },
            decreases elem_size - j,
        {
            dense_data.set(byte_offset + j, sparse.values[value_offset + j]);
            j = j + 1;
        }
        k = k + 1;
        assert(dense_data@ =~= dense_after(sparse.dtype, sparse.shape@, ix, sparse.values@, k as nat));
    }
    Tensor { dtype: sparse.dtype, shape: copy_usizes(&sparse.shape), data: dense_data }
}

proof fn lemma_ts_deltas_prefix(ts: Seq<u64>, j: nat, n: nat)
    requires
        1 <= j <= n <= ts.len(),
    ensures
        ts_deltas_bytes(ts, n) =~= ts_deltas_bytes(ts, j) + ts_deltas_bytes(ts, n).skip(ts_deltas_bytes(ts, j).len() as int),
        ts_deltas_bytes(ts, j).len() <= ts_deltas_bytes(ts, n).len(),
    decreases n,
{
    if j < n {
        lemma_ts_deltas_prefix(ts, j, (n - 1) as nat);
    }
}

proof fn lemma_parse_ts_deltas(ts: Seq<u64>, s: Seq<u8>, p: nat, j: nat)
    requires
        1 <= j <= ts.len(),
        ts_deltas_fit(ts),
        holds_at(s, p, ts_deltas_bytes(ts, ts.len())),
    ensures
        parse_ts_deltas(s, p + ts_deltas_bytes(ts, j).len(), (ts.len() - j) as nat, ts[j - 1] as i64, ts.subrange(0, j as int))
            == Ok::<(Seq<u64>, nat), FluxPackError>((ts, p + ts_deltas_bytes(ts, ts.len()).len())),
    decreases ts.len() - j,
{
    let n = ts.len();
    lemma_ts_deltas_prefix(ts, j, n);
    if j == n {
        assert(ts.subrange(0, j as int) =~= ts);
    } else {
        let pre = ts_deltas_bytes(ts, j);
        let d = ts_delta(ts, j as int) as i64;
        let db = signed_varint_bytes(d);
        assert(ts_deltas_bytes(ts, j + 1) == pre + db);
        lemma_ts_deltas_prefix(ts, j + 1, n);
        let all = ts_deltas_bytes(ts, n);
        lemma_holds_split(s, p, pre + db, all.skip((pre + db).len() as int));
        lemma_holds_split(s, p, pre, db);
        lemma_holds_skip(s, p + pre.len(), db);
        lemma_signed_varint_roundtrip(d, s.skip((p + pre.len() + db.len()) as int));
        assert(i64::MIN <= ts_delta(ts, j as int) <= i64::MAX);
        let a = ts[j - 1] as i64;
        let next = vstd::wrapping::i64_specs::wrapping_add(a, d);
        assert(next == ts[j as int] as i64);
        let x = ts[j as int];
        assert(((x as i64) as u64) == x) by (bit_vector);
        assert(ts.subrange(0, j as int).push(ts[j as int]) =~= ts.subrange(0, (j + 1) as int));
        lemma_parse_ts_deltas(ts, s, p, j + 1);
    }
}

/// Law: timestamps whose neighbouring differences fit in an `i64` read back from their
/// delta encoding (whatever follows it) as the same timestamps, taking all its bytes.
pub proof fn law_timestamps_roundtrip(ts: Seq<u64>, rest: Seq<u8>)
    requires
        ts.len() > 0,
        ts.len() <= u64::MAX,
        ts_deltas_fit(ts),
    ensures
        parse_timestamps(timestamps_bytes(ts) + rest)
            == Ok::<(Seq<u64>, nat), FluxPackError>((ts, timestamps_bytes(ts).len())),
{
    let b = timestamps_bytes(ts);
    let s = b + rest;
    let v0 = varint_bytes(ts[0]);
    let vn = varint_bytes(ts.len() as u64);
    let db = ts_deltas_bytes(ts, ts.len());
    assert(holds_at(s, 0, v0 + vn + db)) by {
        assert(s.subrange(0, b.len() as int) =~= v0 + vn + db);
    }
    lemma_holds_split(s, 0, v0 + vn, db);
    lemma_holds_split(s, 0, v0, vn);
    lemma_varint_at(s, 0, ts[0]);
    assert(s.skip(0) =~= s);
    lemma_varint_at(s, v0.len(), ts.len() as u64);
    assert(ts_deltas_bytes(ts, 1) =~= Seq::<u8>::empty());
    assert(ts.subrange(0, 1) =~= seq![ts[0]]);
    lemma_parse_ts_deltas(ts, s, v0.len() + vn.len(), 1);
}


proof fn lemma_parse_indices_bytes(s: Seq<u8>, pos: nat, ix: Seq<Seq<usize>>, nd: nat)
    requires
        holds_at(s, pos, indices_bytes(ix)),
        forall|k: int| 0 <= k < ix.len() ==> (#[trigger] ix[k]).len() == nd,
    ensures
        parse_indices(s, pos, ix.len(), nd) == Ok::<(Seq<Seq<usize>>, nat), FluxPackError>((ix, pos + indices_bytes(ix).len())),
    decreases ix.len(),
{
    if ix.len() > 0 {
        let pre = indices_bytes(ix.drop_last());
        let last = dims_bytes(ix.last());
        lemma_holds_split(s, pos, pre, last);
        assert forall|k: int| 0 <= k < ix.drop_last().len() implies (#[trigger] ix.drop_last()[k]).len() == nd by {
            assert(ix.drop_last()[k] == ix[k]);
        }
        lemma_parse_indices_bytes(s, pos, ix.drop_last(), nd);
        assert(ix.last() == ix[ix.len() - 1]);
        lemma_parse_dims_bytes(s, pos + pre.len(), ix.last());
        assert(ix.drop_last().push(ix.last()) =~= ix);
    } else {
        assert(ix =~= Seq::<Seq<usize>>::empty());
    }
}

/// Law: a sparse tensor whose indices each have one component per dimension, and whose
/// values have the size its dtype calls for, reads back from its bytes (whatever follows
/// them) as the same dtype, shape, indices and values.
pub proof fn law_sparse_roundtrip(dtype: TensorDtype, shape: Seq<usize>, ix: Seq<Seq<usize>>, values: Seq<u8>, rest: Seq<u8>)
    requires
        shape.len() <= u64::MAX,
        ix.len() <= u64::MAX,
        forall|k: int| 0 <= k < ix.len() ==> (#[trigger] ix[k]).len() == shape.len(),
        values.len() == ix.len() * dtype_size(dtype),
    ensures
        ({
            let b = sparse_bytes(dtype, shape, ix, values);
            let s = b + rest;
            &&& sparse_header(s) == Ok::<(TensorDtype, Seq<usize>, Seq<Seq<usize>>, nat), FluxPackError>(
                (dtype, shape, ix, (b.len() - values.len()) as nat))
            &&& s.subrange(b.len() - values.len(), b.len() as int) == values
        }),
{
    let b = sparse_bytes(dtype, shape, ix, values);
    let s = b + rest;
    let nb = varint_bytes(shape.len() as u64);
    let db = dims_bytes(shape);
    let kb = varint_bytes(ix.len() as u64);
    let ib = indices_bytes(ix);
    let head = seq![dtype_tag(dtype)] + nb + db + kb + ib;
    assert(s == head + (values + rest));
    assert(holds_at(s, 0, head)) by {
        assert(s.subrange(0, head.len() as int) =~= head);
    }
    lemma_holds_split(s, 0, seq![dtype_tag(dtype)] + nb + db + kb, ib);
    lemma_holds_split(s, 0, seq![dtype_tag(dtype)] + nb + db, kb);
    lemma_holds_split(s, 0, seq![dtype_tag(dtype)] + nb, db);
    lemma_holds_split(s, 0, seq![dtype_tag(dtype)], nb);
    lemma_varint_at(s, 1, shape.len() as u64);
    lemma_parse_dims_bytes(s, 1 + nb.len(), shape);
    lemma_varint_at(s, 1 + nb.len() + db.len(), ix.len() as u64);
    lemma_parse_indices_bytes(s, 1 + nb.len() + db.len() + kb.len(), ix, shape.len());
    assert(s[0] == dtype_tag(dtype));
    assert(s.subrange(b.len() - values.len(), b.len() as int) =~= values);
}

/// The bytes of one single, as `le_bytes32` writes them.
proof fn lemma_le_bytes32_one(x: u32)
    ensures
        le_bytes32(seq![x]) == spec_u32_to_le_bytes(x),
{
    lemma_auto_spec_u32_to_from_le_bytes();
    assert(seq![x].drop_last() =~= Seq::<u32>::empty());
    assert(seq![x].last() == x);
    assert(le_bytes32(Seq::<u32>::empty()) == Seq::<u8>::empty());
    assert(Seq::<u8>::empty() + spec_u32_to_le_bytes(x) =~= spec_u32_to_le_bytes(x));
}

/// The entries kept from the first `m` singles begin those kept from the first `n`; each
/// index is one position below `m`, and each value takes 4 bytes.
proof fn lemma_sparse_prefix(dense: Seq<u32>, m: nat, n: nat)
    requires
        m <= n <= dense.len(),
    ensures
        sparse_of_dense(dense, m).0.len() <= sparse_of_dense(dense, n).0.len(),
        sparse_of_dense(dense, n).0.subrange(0, sparse_of_dense(dense, m).0.len() as int) == sparse_of_dense(dense, m).0,
        sparse_of_dense(dense, n).1.subrange(0, sparse_of_dense(dense, m).1.len() as int) == sparse_of_dense(dense, m).1,
        sparse_of_dense(dense, m).1.len() == 4 * sparse_of_dense(dense, m).0.len(),
        sparse_of_dense(dense, n).1.len() == 4 * sparse_of_dense(dense, n).0.len(),
    decreases n,
{
    lemma_auto_spec_u32_to_from_le_bytes();
    if m < n {
        lemma_sparse_prefix(dense, m, (n - 1) as nat);
        let (ix, vs) = sparse_of_dense(dense, (n - 1) as nat);
        let (ixm, vsm) = sparse_of_dense(dense, m);
        if f32_nonzero(dense[n - 1]) {
            lemma_le_bytes32_one(dense[n - 1]);
            assert(ix.push(seq![(n - 1) as usize]).subrange(0, ixm.len() as int) =~= ix.subrange(0, ixm.len() as int));
            assert((vs + le_bytes32(seq![dense[n - 1]])).subrange(0, vsm.len() as int) =~= vs.subrange(0, vsm.len() as int));
        }
    } else {
        let (ix, vs) = sparse_of_dense(dense, n);
        assert(ix.subrange(0, ix.len() as int) =~= ix);
        assert(vs.subrange(0, vs.len() as int) =~= vs);
        if n > 0 {
            lemma_sparse_prefix(dense, (n - 1) as nat, (n - 1) as nat);
            if f32_nonzero(dense[n - 1]) {
                lemma_le_bytes32_one(dense[n - 1]);
            }
        }
    }
}

/// The dense bytes with the non-zero singles among the first `m` in place, zeros elsewhere.
pub open spec fn dense_with(dense: Seq<u32>, m: nat) -> Seq<u8> {
    Seq::new(4 * dense.len(), |b: int| if b / 4 < m && f32_nonzero(dense[b / 4]) {
        spec_u32_to_le_bytes(dense[b / 4])[b % 4]
    } else {
        0u8
    })
}

/// Placing the entries kept from the first `m` singles gives `dense_with` of `m`.
proof fn lemma_dense_after_prefix(dense: Seq<u32>, m: nat)
    requires
        m <= dense.len(),
        dense.len() <= usize::MAX,
    ensures
        dense_after(TensorDtype::F32, seq![dense.len() as usize], sparse_of_dense(dense, dense.len()).0,
            sparse_of_dense(dense, dense.len()).1, sparse_of_dense(dense, m).0.len()) == dense_with(dense, m),
    decreases m,
{
    let n = dense.len();
    let shape = seq![n as usize];
    let (ix, vs) = sparse_of_dense(dense, n);
    assert(shape.drop_last() =~= Seq::<usize>::empty());
    let a = shape_product(shape.drop_last());
    assert(a == 1);
    assert(shape.last() == n as usize);
    assert(shape_product(shape) == a * (n as nat));
    assert(a * (n as nat) == n) by (nonlinear_arith)
        requires
            a == 1,
    ;
    if m == 0 {
        assert(dense_after(TensorDtype::F32, shape, ix, vs, 0) =~= dense_with(dense, 0));
    } else {
        let i = (m - 1) as nat;
        lemma_dense_after_prefix(dense, i);
        lemma_sparse_prefix(dense, i, n);
        lemma_sparse_prefix(dense, m, n);
        let k: int = sparse_of_dense(dense, i).0.len() as int;
        if f32_nonzero(dense[i as int]) {
            lemma_le_bytes32_one(dense[i as int]);
            let (ixm, vsm) = sparse_of_dense(dense, m);
            assert(ixm[k] == ix[k]);
            assert(ix[k] == seq![i as usize]);
            assert(vsm.subrange(4 * k, 4 * k + 4) =~= spec_u32_to_le_bytes(dense[i as int]));
            let vw = vs.subrange(4 * k, 4 * k + 4);
            let vmw = vsm.subrange(4 * k, 4 * k + 4);
            assert(vw == vmw) by {
                assert forall|b: int| 0 <= b < 4 implies #[trigger] vw[b] == vmw[b] by {
                    assert(vs.subrange(0, vsm.len() as int)[4 * k + b] == vsm[4 * k + b]);
                }
                assert(vw =~= vmw);
            }
            let idx = seq![i as usize];
            assert(idx.len() == 1);
            assert(shape.subrange(1, 1) =~= Seq::<usize>::empty());
            assert(flat_index(shape, idx, 0) == 0);
            assert(flat_index(shape, idx, 1) == i);
            let prev = dense_with(dense, i);
            assert(dense_after(TensorDtype::F32, shape, ix, vs, (k + 1) as nat)
                == prev.subrange(0, 4 * (i as int)) + vs.subrange(4 * k, 4 * k + 4) + prev.subrange(4 * (i as int) + 4, prev.len() as int));
            assert(dense_after(TensorDtype::F32, shape, ix, vs, (k + 1) as nat) =~= dense_with(dense, m));
        } else {
            assert(dense_with(dense, i) =~= dense_with(dense, m));
        }
    }
}

/// Law: converting back to dense the sparse tensor made from dense singles gives every
/// non-zero single in its place, as its little-endian bytes, and zero bytes elsewhere (a
/// negative zero, kept as zero, reads back as a positive one).
pub proof fn law_sparse_dense_roundtrip(dense: Seq<u32>)
    requires
        dense.len() <= usize::MAX,
    ensures
        dense_after(TensorDtype::F32, seq![dense.len() as usize], sparse_of_dense(dense, dense.len()).0,
            sparse_of_dense(dense, dense.len()).1, sparse_of_dense(dense, dense.len()).0.len())
            == dense_with(dense, dense.len()),
{
    lemma_dense_after_prefix(dense, dense.len());
}


/// The last of the first `n` indices whose flat position is `f`, or -1 when none is.
pub open spec fn last_at(shape: Seq<usize>, ix: Seq<Seq<usize>>, n: nat, f: nat) -> int
    decreases n,
{
    if n == 0 {
        -1
    } else if flat_index(shape, ix[n - 1], ix[n - 1].len()) == f {
        n - 1
    } else {
        last_at(shape, ix, (n - 1) as nat, f)
    }
}

/// The byte `p` of dense data lies in the slot of element `f` (of `e` bytes) exactly when
/// `p / e == f`, at the offset `p % e`.
proof fn lemma_slot(p: int, f: int, e: int)
    requires
        e > 0,
        p >= 0,
        f >= 0,
    ensures
        (f * e <= p < f * e + e) <==> p / e == f,
        p < f * e ==> p / e < f,
        p >= f * e + e ==> p / e > f,
        p / e == f ==> p % e == p - f * e,
{
    let q = p / e;
    let r = p % e;
    vstd::arithmetic::div_mod::lemma_fundamental_div_mod(p, e);
    vstd::arithmetic::div_mod::lemma_mod_bound(p, e);
    assert(p == e * q + r);
    assert(0 <= r < e);
    assert((f * e <= p < f * e + e) ==> q == f) by (nonlinear_arith)
        requires
            p == e * q + r,
            0 <= r < e,
            e > 0,
    {
        if f * e <= p < f * e + e {
            if q < f {
                assert(e * q <= e * (f - 1));
            } else if q > f {
                assert(e * q >= e * (f + 1));
            }
        }
    }
    assert(p < f * e ==> q < f) by (nonlinear_arith)
        requires
            p == e * q + r,
            0 <= r < e,
            e > 0,
    {
        if p < f * e && q >= f {
            assert(e * q >= e * f);
        }
    }
    assert(p >= f * e + e ==> q > f) by (nonlinear_arith)
        requires
            p == e * q + r,
            0 <= r < e,
            e > 0,
    {
        if p >= f * e + e && q <= f {
            assert(e * q <= e * f);
        }
    }
    assert(q == f ==> f * e <= p < f * e + e) by (nonlinear_arith)
        requires
            p == e * q + r,
            0 <= r < e,
    ;
    assert(q == f ==> r == p - f * e) by (nonlinear_arith)
        requires
            p == e * q + r,
    ;
}

/// The byte at `p` of dense data from the first `n` indices: in the element `p / e`, the
/// byte `p % e` of the value of the last index placed there, or zero when none is.
pub open spec fn placed_byte(dtype: TensorDtype, shape: Seq<usize>, ix: Seq<Seq<usize>>, values: Seq<u8>, n: nat,
    p: int) -> u8 {
    let e = dtype_size(dtype) as int;
    let k = last_at(shape, ix, n, (p / e) as nat);
    if k < 0 {
        0u8
    } else {
        values[k * e + p % e]
    }
}

/// Law: converting a sparse tensor to dense data places, in each element's bytes, the value
/// of the last index whose flat position is that element, and zeros in an element no index
/// names.
pub proof fn law_sparse_to_dense_closed_form(dtype: TensorDtype, shape: Seq<usize>, ix: Seq<Seq<usize>>,
    values: Seq<u8>, n: nat)
    requires
        sparse_dense_fits(dtype, shape, ix, values),
        n <= ix.len(),
    ensures
        dense_after(dtype, shape, ix, values, n).len() == shape_product(shape) * dtype_size(dtype),
        forall|p: int| 0 <= p < shape_product(shape) * dtype_size(dtype) ==>
            #[trigger] dense_after(dtype, shape, ix, values, n)[p] == placed_byte(dtype, shape, ix, values, n, p),
    decreases n,
{
    let e = dtype_size(dtype);
    let total = shape_product(shape) * e;
    assert(e > 0);
    if n == 0 {
        assert forall|p: int| 0 <= p < total implies
            #[trigger] dense_after(dtype, shape, ix, values, n)[p] == placed_byte(dtype, shape, ix, values, n, p) by {
        }
    } else {
        law_sparse_to_dense_closed_form(dtype, shape, ix, values, (n - 1) as nat);
        let prev = dense_after(dtype, shape, ix, values, (n - 1) as nat);
        let f = flat_index(shape, ix[n - 1], ix[n - 1].len());
        let off = f * e;
        assert(flat_index_fits(shape, ix[n - 1]));
        assert((f + 1) * e <= total);
        assert(off + e <= total) by (nonlinear_arith)
            requires
                (f + 1) * e <= total,
                off == f * e,
        ;
        let cur = dense_after(dtype, shape, ix, values, n);
        assert(n * e <= ix.len() * e) by (nonlinear_arith)
            requires
                n <= ix.len(),
        ;
        assert((n - 1) * e + e == n * e) by (nonlinear_arith);
        assert(cur == prev.subrange(0, off as int) + values.subrange((n - 1) * e, (n * e) as int)
            + prev.subrange((off + e) as int, prev.len() as int));
        assert forall|p: int| 0 <= p < total implies
            #[trigger] cur[p] == placed_byte(dtype, shape, ix, values, n, p) by {
            lemma_slot(p, f as int, e as int);
            assert(p / (e as int) >= 0) by (nonlinear_arith)
                requires
                    p >= 0,
                    e > 0,
            ;
            let g = (p / (e as int)) as nat;
            if p < off {
                assert(cur[p] == prev[p]);
                assert(prev[p] == placed_byte(dtype, shape, ix, values, (n - 1) as nat, p));
                assert(g != f);
            } else if p < off + e {
                assert(g == f);
                assert(last_at(shape, ix, n, g) == n - 1);
                assert(cur[p] == values[(n - 1) * e + (p - off)]);
            } else {
                assert(cur[p] == prev[p]);
                assert(prev[p] == placed_byte(dtype, shape, ix, values, (n - 1) as nat, p));
                assert(g != f);
            }
        }
    }
}


/// The product of dimensions is the first dimension times the product of the rest.
proof fn lemma_product_first(s: Seq<usize>)
    requires
        s.len() > 0,
    ensures
        shape_product(s) == (s[0] as nat) * shape_product(s.drop_first()),
    decreases s.len(),
{
    if s.len() == 1 {
        assert(s.drop_last() =~= Seq::<usize>::empty());
        assert(s.drop_first() =~= Seq::<usize>::empty());
    } else {
        lemma_product_first(s.drop_last());
        assert(s.drop_last().drop_first() =~= s.drop_first().drop_last());
        assert(s.drop_first().last() == s.last());
        let x = s[0] as nat;
        let r = shape_product(s.drop_first().drop_last());
        let l = s.last() as nat;
        assert((x * r) * l == x * (r * l)) by (nonlinear_arith);
    }
}

/// An index is inside the shape: one component per dimension, each below its dimension.
pub open spec fn index_in_shape(shape: Seq<usize>, idx: Seq<usize>) -> bool {
    &&& idx.len() == shape.len()
    &&& forall|d: int| 0 <= d < idx.len() ==> #[trigger] idx[d] < shape[d]
}

/// What the components from `n` on add to an in-shape index's flat position stays below the
/// product of the dimensions from `n` on.
proof fn lemma_flat_suffix(shape: Seq<usize>, a: Seq<usize>, n: nat)
    requires
        index_in_shape(shape, a),
        n <= a.len(),
    ensures
        flat_index(shape, a, n) <= flat_index(shape, a, a.len()),
        flat_index(shape, a, a.len()) - flat_index(shape, a, n)
            < shape_product(shape.subrange(n as int, shape.len() as int)),
    decreases a.len() - n,
{
    let len = shape.len() as int;
    if n == a.len() {
        assert(shape.subrange(n as int, len) =~= Seq::<usize>::empty());
    } else {
        lemma_flat_suffix(shape, a, n + 1);
        let sub = shape.subrange(n as int, len);
        lemma_product_first(sub);
        assert(sub.drop_first() =~= shape.subrange((n + 1) as int, len));
        let pn = shape_product(shape.subrange(n as int, len));
        let p1 = shape_product(shape.subrange((n + 1) as int, len));
        let x = a[n as int] as int;
        let sh = shape[n as int] as int;
        assert(x < sh);
        assert(pn == sh * p1);
        let tail = flat_index(shape, a, a.len()) - flat_index(shape, a, n + 1);
        assert(flat_index(shape, a, n + 1) == flat_index(shape, a, n) + x * p1);
        assert(x * p1 + tail < sh * p1) by (nonlinear_arith)
            requires
                0 <= x < sh,
                0 <= tail < p1,
        {
            assert((x + 1) * p1 <= sh * p1);
        }
        assert(x * p1 >= 0) by (nonlinear_arith)
            requires
                x >= 0,
                p1 >= 0,
        ;
    }
}

/// Two indices that agree on their first `n` components have the same flat position of
/// those components.
proof fn lemma_flat_prefix(shape: Seq<usize>, a: Seq<usize>, b: Seq<usize>, n: nat)
    requires
        forall|d: int| 0 <= d < n ==> a[d] == b[d],
    ensures
        flat_index(shape, a, n) == flat_index(shape, b, n),
    decreases n,
{
    if n > 0 {
        lemma_flat_prefix(shape, a, b, (n - 1) as nat);
    }
}

/// Distinct indices inside the shape have distinct flat positions (here from the first
/// component on which they may differ, `n`).
proof fn lemma_flat_distinct_from(shape: Seq<usize>, a: Seq<usize>, b: Seq<usize>, n: nat)
    requires
        index_in_shape(shape, a),
        index_in_shape(shape, b),
        a != b,
        n <= a.len(),
        forall|d: int| 0 <= d < n ==> a[d] == b[d],
    ensures
        flat_index(shape, a, a.len()) != flat_index(shape, b, b.len()),
    decreases a.len() - n,
{
    let len = shape.len() as int;
    if n == a.len() {
        assert(a =~= b);
    } else if a[n as int] == b[n as int] {
        lemma_flat_distinct_from(shape, a, b, n + 1);
    } else {
        lemma_flat_prefix(shape, a, b, n);
        lemma_flat_suffix(shape, a, n + 1);
        lemma_flat_suffix(shape, b, n + 1);
        let p1 = shape_product(shape.subrange((n + 1) as int, len));
        let fa = flat_index(shape, a, a.len());
        let fb = flat_index(shape, b, b.len());
        let base = flat_index(shape, a, n);
        let x = a[n as int] as int;
        let y = b[n as int] as int;
        let ta = fa - flat_index(shape, a, n + 1);
        let tb = fb - flat_index(shape, b, n + 1);
        assert(fa == base + x * p1 + ta);
        assert(fb == base + y * p1 + tb);
        assert(x * p1 + ta != y * p1 + tb) by (nonlinear_arith)
            requires
                x != y,
                x >= 0,
                y >= 0,
                0 <= ta < p1,
                0 <= tb < p1,
        {
            if x < y {
                assert((x + 1) * p1 <= y * p1);
            } else {
                assert((y + 1) * p1 <= x * p1);
            }
        }
    }
}

/// Law: distinct indices inside a shape have distinct flat positions.
pub proof fn law_flat_index_injective(shape: Seq<usize>, a: Seq<usize>, b: Seq<usize>)
    requires
        index_in_shape(shape, a),
        index_in_shape(shape, b),
        a != b,
    ensures
        flat_index(shape, a, a.len()) != flat_index(shape, b, b.len()),
{
    lemma_flat_distinct_from(shape, a, b, 0);
}

/// The last of the first `n` indices at flat position `f` is one of them, and at `f`.
proof fn lemma_last_at(shape: Seq<usize>, ix: Seq<Seq<usize>>, n: nat, f: nat)
    ensures
        last_at(shape, ix, n, f) < n,
        last_at(shape, ix, n, f) >= 0 ==> flat_index(shape, ix[last_at(shape, ix, n, f)],
            ix[last_at(shape, ix, n, f)].len()) == f,
        last_at(shape, ix, n, f) < 0 ==> last_at(shape, ix, n, f) == -1,
    decreases n,
{
    if n > 0 {
        lemma_last_at(shape, ix, (n - 1) as nat, f);
    }
}

/// With no later index at the same flat position, index `k` is the last one there.
proof fn lemma_last_at_is(shape: Seq<usize>, ix: Seq<Seq<usize>>, n: nat, k: int)
    requires
        0 <= k < n,
        forall|j: int| k < j < n ==> flat_index(shape, #[trigger] ix[j], ix[j].len())
            != flat_index(shape, ix[k], ix[k].len()),
    ensures
        last_at(shape, ix, n, flat_index(shape, ix[k], ix[k].len())) == k,
    decreases n,
{
    if n - 1 > k {
        lemma_last_at_is(shape, ix, (n - 1) as nat, k);
    }
}

/// Law: converting a sparse tensor whose indices are distinct and inside its shape to dense
/// data puts the bytes of value `k` at the flat position of index `k`, and zeros in every
/// byte of an element no index names.
pub proof fn law_sparse_to_dense_distinct(dtype: TensorDtype, shape: Seq<usize>, ix: Seq<Seq<usize>>,
    values: Seq<u8>)
    requires
        sparse_dense_fits(dtype, shape, ix, values),
        forall|k: int| 0 <= k < ix.len() ==> index_in_shape(shape, #[trigger] ix[k]),
        forall|j: int, k: int| 0 <= j < ix.len() && 0 <= k < ix.len() && j != k ==> #[trigger] ix[j] != #[trigger] ix[k],
    ensures
        dense_after(dtype, shape, ix, values, ix.len()).len() == shape_product(shape) * dtype_size(dtype),
        forall|k: int, i: int| 0 <= k < ix.len() && 0 <= i < dtype_size(dtype) ==>
            dense_after(dtype, shape, ix, values, ix.len())[
                flat_index(shape, #[trigger] ix[k], ix[k].len()) * dtype_size(dtype) + i]
                == #[trigger] values[k * dtype_size(dtype) + i],
        forall|p: int| 0 <= p < shape_product(shape) * dtype_size(dtype)
            && (forall|k: int| 0 <= k < ix.len() ==> !(flat_index(shape, #[trigger] ix[k], ix[k].len()) * dtype_size(dtype) <= p
                < flat_index(shape, ix[k], ix[k].len()) * dtype_size(dtype) + dtype_size(dtype)))
            ==> #[trigger] dense_after(dtype, shape, ix, values, ix.len())[p] == 0u8,
{
    let n = ix.len();
    let e = dtype_size(dtype) as int;
    let total = shape_product(shape) * dtype_size(dtype);
    law_sparse_to_dense_closed_form(dtype, shape, ix, values, n);
    let dense = dense_after(dtype, shape, ix, values, n);
    assert forall|k: int, i: int| 0 <= k < ix.len() && 0 <= i < dtype_size(dtype) implies
        dense[flat_index(shape, #[trigger] ix[k], ix[k].len()) * dtype_size(dtype) + i]
            == #[trigger] values[k * dtype_size(dtype) + i] by {
        let f = flat_index(shape, ix[k], ix[k].len());
        assert forall|j: int| k < j < n implies flat_index(shape, #[trigger] ix[j], ix[j].len()) != f by {
            law_flat_index_injective(shape, ix[j], ix[k]);
        }
        lemma_last_at_is(shape, ix, n, k);
        assert(flat_index_fits(shape, ix[k]));
        assert((f + 1) * e <= total);
        let p = f * e + i;
        assert(p < total) by (nonlinear_arith)
            requires
                (f + 1) * e <= total,
                p == f * e + i,
                i < e,
        ;
        assert(p >= 0) by (nonlinear_arith)
            requires
                p == f * e + i,
                i >= 0,
                f >= 0,
                e > 0,
        ;
        lemma_slot(p, f as int, e);
        assert(dense[p] == placed_byte(dtype, shape, ix, values, n, p));
    }
    assert forall|p: int| 0 <= p < total
        && (forall|k: int| 0 <= k < ix.len() ==> !(flat_index(shape, #[trigger] ix[k], ix[k].len()) * dtype_size(dtype) <= p
            < flat_index(shape, ix[k], ix[k].len()) * dtype_size(dtype) + dtype_size(dtype)))
        implies #[trigger] dense[p] == 0u8 by {
        assert(dense[p] == placed_byte(dtype, shape, ix, values, n, p));
        assert(p / e >= 0) by (nonlinear_arith)
            requires
                p >= 0,
                e > 0,
        ;
        let g = (p / e) as nat;
        lemma_last_at(shape, ix, n, g);
        let j = last_at(shape, ix, n, g);
        if j >= 0 {
            lemma_slot(p, g as int, e);
            assert(flat_index(shape, ix[j], ix[j].len()) == g);
            assert(!(flat_index(shape, ix[j], ix[j].len()) * dtype_size(dtype) <= p
                < flat_index(shape, ix[j], ix[j].len()) * dtype_size(dtype) + dtype_size(dtype)));
        }
    }
}


/// What `sparse_of_dense` keeps of the first `n` singles: an index `[i]` for each single
/// that is not a zero of either sign, in order, with its bytes.
proof fn lemma_sparse_of_dense_keeps(dense: Seq<u32>, n: nat)
    requires
        n <= dense.len() <= usize::MAX,
    ensures
        sparse_of_dense(dense, n).1.len() == 4 * sparse_of_dense(dense, n).0.len(),
        forall|k: int| 0 <= k < sparse_of_dense(dense, n).0.len() ==> {
            let ix = #[trigger] sparse_of_dense(dense, n).0[k];
            &&& ix.len() == 1
            &&& (ix[0] as int) < n
            &&& dense[ix[0] as int] & 0x7FFF_FFFF != 0
            &&& sparse_of_dense(dense, n).1.subrange(4 * k, 4 * k + 4) == spec_u32_to_le_bytes(dense[ix[0] as int])
        },
        forall|i: int| 0 <= i < n && #[trigger] dense[i] & 0x7FFF_FFFF != 0 ==>
            exists|k: int| 0 <= k < sparse_of_dense(dense, n).0.len() && #[trigger] sparse_of_dense(dense, n).0[k] == seq![i as usize],
    decreases n,
{
    if n > 0 {
        lemma_sparse_of_dense_keeps(dense, (n - 1) as nat);
        let (ix0, vs0) = sparse_of_dense(dense, (n - 1) as nat);
        let (ix1, vs1) = sparse_of_dense(dense, n);
        let x = dense[n - 1];
        if x & 0x7FFF_FFFF != 0 {
            let one = le_bytes32(seq![x]);
            lemma_le_bytes32_one(x);
            lemma_auto_spec_u32_to_from_le_bytes();
            assert(one.len() == 4);
            assert forall|k: int| 0 <= k < ix1.len() implies {
                let ix = #[trigger] ix1[k];
                &&& ix.len() == 1
                &&& (ix[0] as int) < n
                &&& dense[ix[0] as int] & 0x7FFF_FFFF != 0
                &&& vs1.subrange(4 * k, 4 * k + 4) == spec_u32_to_le_bytes(dense[ix[0] as int])
            } by {
                if k < ix0.len() {
                    assert(ix1[k] == ix0[k]);
                    assert(vs1.subrange(4 * k, 4 * k + 4) =~= vs0.subrange(4 * k, 4 * k + 4));
                } else {
                    assert(ix1[k] == seq![(n - 1) as usize]);
                    assert(k == ix0.len());
                    assert(vs1 == vs0 + one);
                    assert(vs1.subrange(4 * k, 4 * k + 4) =~= one);
                }
            }
            assert forall|i: int| 0 <= i < n && #[trigger] dense[i] & 0x7FFF_FFFF != 0 implies
                exists|k: int| 0 <= k < ix1.len() && #[trigger] ix1[k] == seq![i as usize] by {
                if i < n - 1 {
                    let k = choose|k: int| 0 <= k < ix0.len() && #[trigger] ix0[k] == seq![i as usize];
                    assert(ix1[k] == ix0[k]);
                } else {
                    assert(ix1[ix0.len() as int] == seq![i as usize]);
                }
            }
        } else {
            assert forall|i: int| 0 <= i < n && #[trigger] dense[i] & 0x7FFF_FFFF != 0 implies
                exists|k: int| 0 <= k < ix1.len() && #[trigger] ix1[k] == seq![i as usize] by {
                assert(i < n - 1);
            }
        }
    }
}

/// Law: the sparse tensor made from dense singles holds exactly the singles that are not a
/// zero of either sign: each index `[i]` names such a single, whose bytes are the value, and
/// every such single has an index. Turned back into dense data, each single that is not a
/// zero stands in its place and every other element is zero bytes.
pub proof fn law_from_dense_keeps_nonzero(dense: Seq<u32>)
    requires
        dense.len() <= usize::MAX,
    ensures
        ({
            let (ix, vs) = sparse_of_dense(dense, dense.len());
            &&& vs.len() == 4 * ix.len()
            &&& forall|k: int| 0 <= k < ix.len() ==> (#[trigger] ix[k]).len() == 1 && (ix[k][0] as int) < dense.len()
                && dense[ix[k][0] as int] & 0x7FFF_FFFF != 0
                && vs.subrange(4 * k, 4 * k + 4) == spec_u32_to_le_bytes(dense[ix[k][0] as int])
            &&& forall|i: int| 0 <= i < dense.len() && #[trigger] dense[i] & 0x7FFF_FFFF != 0 ==>
                exists|k: int| 0 <= k < ix.len() && #[trigger] ix[k] == seq![i as usize]
        }),
        forall|b: int| 0 <= b < 4 * dense.len() ==>
            #[trigger] dense_after(TensorDtype::F32, seq![dense.len() as usize], sparse_of_dense(dense, dense.len()).0,
                sparse_of_dense(dense, dense.len()).1, sparse_of_dense(dense, dense.len()).0.len())[b]
            == if dense[b / 4] & 0x7FFF_FFFF != 0 { spec_u32_to_le_bytes(dense[b / 4])[b % 4] } else { 0u8 },
{
    lemma_sparse_of_dense_keeps(dense, dense.len());
    law_sparse_dense_roundtrip(dense);
}

} // verus!
