//! Delta encoding for numeric sequences: the first value, then each difference to the one
//! before, all as ZigZag varints.
//!
//! Wire format: `count(varint) | first_value(signed_varint) | deltas[(count-1) × signed_varint]`.
use vstd::prelude::*;
use crate::error::FluxPackError;
use crate::json::{Json, JsonNumber, JsonValue, values_view, lemma_values_view_push, lemma_array_view};
use crate::varint::{
    encode_varint, decode_varint_at, encode_signed_varint, decode_signed_varint_at, varint_bytes,
    varint_parse, signed_varint_bytes, signed_varint_parse, varint_len, zigzag, zigzag_encode,
    lemma_signed_varint_roundtrip,
};
use crate::roundtrip::{holds_at, lemma_holds_split, lemma_holds_skip, lemma_varint_at};

verus! {

/// Minimum sequence length to benefit from delta encoding.
pub const DELTA_THRESHOLD: usize = 4;

/// The integers (`i64`) among the values, in order; other values are skipped.
pub open spec fn ints_of(values: Seq<Json>) -> Seq<i64>
    decreases values.len(),
{
    if values.len() == 0 {
        Seq::empty()
    } else {
        ints_of(values.drop_last()) + match values.last() {
            Json::Num(JsonNumber::Int(i)) => seq![i],
            _ => Seq::empty(),
        }
    }
}

/// The difference between integer `i` and integer `i - 1`.
pub open spec fn int_delta(nums: Seq<i64>, i: int) -> int {
    nums[i] - nums[i - 1]
}

/// Every difference between neighbouring integers fits in an `i64`.
pub open spec fn deltas_fit(nums: Seq<i64>) -> bool {
    forall|i: int| 1 <= i < nums.len() ==> i64::MIN <= #[trigger] int_delta(nums, i) <= i64::MAX
}

/// The absolute differences of the first `n` integers, added up.
pub open spec fn abs_delta_sum(nums: Seq<i64>, n: nat) -> int
    decreases n,
{
    if n <= 1 || n > nums.len() {
        0
    } else {
        let d = int_delta(nums, n - 1);
        abs_delta_sum(nums, (n - 1) as nat) + if d < 0 { -d } else { d }
    }
}

/// The signed varints of the differences from integer 1 to `n - 1`.
pub open spec fn deltas_bytes(nums: Seq<i64>, n: nat) -> Seq<u8>
    decreases n,
{
    if n <= 1 || n > nums.len() {
        Seq::empty()
    } else {
        deltas_bytes(nums, (n - 1) as nat) + signed_varint_bytes(int_delta(nums, n - 1) as i64)
    }
}

/// A non-empty integer sequence on the wire.
pub open spec fn delta_bytes(nums: Seq<i64>) -> Seq<u8> {
    varint_bytes(nums.len() as u64) + signed_varint_bytes(nums[0]) + deltas_bytes(nums, nums.len())
}

/// Collects the integers among the values.
fn collect_ints(values: &[JsonValue]) -> (nums: Vec<i64>)
    ensures
        nums@ == ints_of(values_view(values@)),
{
    let mut nums: Vec<i64> = Vec::new();
    let mut i: usize = 0;
    while i < values.len()
        invariant
            i <= values@.len(),
            nums@ == ints_of(values_view(values@.subrange(0, i as int))),
        decreases values.len() - i,
    {
        let ghost pre = values@.subrange(0, i as int);
        assert(values_view(values@.subrange(0, i + 1)).drop_last() =~= values_view(pre));
        match &values[i] {
            JsonValue::Number(JsonNumber::Int(x)) => {
                nums.push(*x);
            },
            _ => {},
        }
        i = i + 1;
        assert(nums@ =~= ints_of(values_view(values@.subrange(0, i as int))));
    }
    assert(values@.subrange(0, values@.len() as int) =~= values@);
    nums
}

/// Whether a sequence of numbers would benefit from delta encoding: at least 4 values,
/// all integers, whose average absolute difference is below 1000.
pub fn should_delta_encode(values: &[JsonValue]) -> (r: bool)
    requires
        values@.len() >= DELTA_THRESHOLD && ints_of(values_view(values@)).len() == values@.len() ==> {
            let nums = ints_of(values_view(values@));
            deltas_fit(nums) && abs_delta_sum(nums, nums.len()) <= u64::MAX
        },
    ensures
        r == {
            let nums = ints_of(values_view(values@));
            &&& values@.len() >= DELTA_THRESHOLD
            &&& nums.len() == values@.len()
            &&& abs_delta_sum(nums, nums.len()) / ((nums.len() - 1) as int) < 1000
        },
{
    if values.len() < DELTA_THRESHOLD {
        return false;
    }
    let nums = collect_ints(values);
    if nums.len() != values.len() {
        return false;
    }
    let ghost ns = nums@;
    let mut total_delta: u64 = 0;
    let mut i: usize = 1;
    while i < nums.len()
        invariant
            ns == nums@,
            deltas_fit(ns),
            abs_delta_sum(ns, ns.len()) <= u64::MAX,
            1 <= i <= ns.len(),
            total_delta == abs_delta_sum(ns, i as nat),
        decreases nums.len() - i,
    {
        proof {
            lemma_abs_delta_sum_mono(ns, (i + 1) as nat, ns.len());
        }
        assert(i64::MIN <= int_delta(ns, i as int) <= i64::MAX);
        let delta = nums[i] - nums[i - 1];
        let magnitude: u64 = if delta >= 0 { delta as u64 } else { ((-(delta + 1)) as u64) + 1 };
        total_delta = total_delta + magnitude;
        i = i + 1;
    }
    let avg_delta = total_delta / ((nums.len() - 1) as u64);
    avg_delta < 1000
}

proof fn lemma_abs_delta_sum_mono(nums: Seq<i64>, j: nat, n: nat)
    requires
        j <= n <= nums.len(),
    ensures
        abs_delta_sum(nums, j) <= abs_delta_sum(nums, n),
    decreases n,
{
    if j < n {
        lemma_abs_delta_sum_mono(nums, j, (n - 1) as nat);
    }
}

/// Encode the integers among the values with delta encoding. Without any integer it is
/// an error and writes nothing.
pub fn encode_delta(values: &[JsonValue], buffer: &mut Vec<u8>) -> (r: Result<(), FluxPackError>)
    requires
        deltas_fit(ints_of(values_view(values@))),
    ensures
        ints_of(values_view(values@)).len() == 0 ==> final(buffer)@ == old(buffer)@
            && (r matches Err(FluxPackError::ColumnarError(m)) && m@ == "empty sequence"@),
        ints_of(values_view(values@)).len() > 0 ==> r is Ok
            && final(buffer)@ == old(buffer)@ + delta_bytes(ints_of(values_view(values@))),
{
    let nums = collect_ints(values);
    if nums.len() == 0 {
        return Err(FluxPackError::ColumnarError(String::from_str("empty sequence")));
    }
    let ghost ns = nums@;
    encode_varint(nums.len() as u64, buffer);
    encode_signed_varint(nums[0], buffer);
    let ghost mid = buffer@;
    let mut i: usize = 1;
    while i < nums.len()
        invariant
            ns == nums@,
            deltas_fit(ns),
            1 <= i <= ns.len(),
            buffer@ == mid + deltas_bytes(ns, i as nat),
        decreases nums.len() - i,
    {
        assert(i64::MIN <= int_delta(ns, i as int) <= i64::MAX);
        let delta = nums[i] - nums[i - 1];
        encode_signed_varint(delta, buffer);
        i = i + 1;
    }
    Ok(())
}

/// Reading `k` more deltas from `pos`, from the value `cur`: all the values and the position
/// after the last delta read.
pub open spec fn parse_deltas(s: Seq<u8>, pos: nat, k: nat, cur: i64, acc: Seq<i64>) -> Result<(Seq<i64>, nat), FluxPackError>
    decreases k,
{
    if k == 0 {
        Ok((acc, pos))
    } else {
        match signed_varint_parse(s.skip(pos as int)) {
            Ok((d, c)) => {
                let next = vstd::wrapping::i64_specs::wrapping_add(cur, d);
                parse_deltas(s, pos + c, (k - 1) as nat, next, acc.push(next))
            },
            Err(e) => Err(e),
        }
    }
}

/// What `decode_delta` reads from `s`: the integers and the bytes they took.
pub open spec fn parse_delta(s: Seq<u8>) -> Result<(Seq<i64>, nat), FluxPackError> {
    match varint_parse(s) {
        Ok((count, c1)) => if count == 0 {
            Ok((Seq::empty(), c1))
        } else {
            match signed_varint_parse(s.skip(c1 as int)) {
                Ok((first, c2)) => parse_deltas(s, c1 + c2, (count - 1) as nat, first, seq![first]),
                Err(e) => Err(e),
            }
        },
        Err(e) => Err(e),
    }
}

/// The integers as JSON numbers.
pub open spec fn ints_json(nums: Seq<i64>) -> Seq<Json> {
    Seq::new(nums.len(), |i: int| Json::Num(JsonNumber::Int(nums[i])))
}

/// Decode a delta-encoded sequence: the values (as JSON integers) and the bytes consumed.
pub fn decode_delta(input: &[u8]) -> (r: Result<(Vec<JsonValue>, usize), FluxPackError>)
    ensures
        match parse_delta(input@) {
            Ok((nums, n)) => r matches Ok((v, used)) && values_view(v@) == ints_json(nums) && used == n,
            Err(e) => r == Err::<(Vec<JsonValue>, usize), FluxPackError>(e),
        },
{
    let ilen = input.len();
    assert(input@.skip(0) =~= input@);
    let (count, c1) = match decode_varint_at(input, 0) {
        Ok(x) => x,
        Err(e) => {
            return Err(e);
        },
    };
    if count == 0 {
        let v: Vec<JsonValue> = Vec::new();
        assert(values_view(v@) =~= ints_json(Seq::<i64>::empty()));
        return Ok((v, c1));
    }
    let (first, c2) = match decode_signed_varint_at(input, c1) {
        Ok(x) => x,
        Err(e) => {
            return Err(e);
        },
    };
    let mut cursor = c1 + c2;
    let mut values: Vec<JsonValue> = Vec::new();
    let ghost mut nums: Seq<i64> = seq![first];
    values.push(JsonValue::Number(JsonNumber::Int(first)));
    assert(values_view(values@) =~= ints_json(nums));
    let mut current: i64 = first;
    let mut k: u64 = 0;
    let n: u64 = count - 1;
    while k < n
        invariant
            ilen == input@.len(),
            k <= n,
            cursor <= input@.len(),
            parse_delta(input@) == parse_deltas(input@, cursor as nat, (n - k) as nat, current, nums),
            values_view(values@) == ints_json(nums),
        decreases n - k,
    {
        let (delta, consumed) = match decode_signed_varint_at(input, cursor) {
            Ok(x) => x,
            Err(e) => {
                return Err(e);
            },
        };
        cursor = cursor + consumed;
        current = current.wrapping_add(delta);
        let v = JsonValue::Number(JsonNumber::Int(current));
        proof {
            lemma_values_view_push(values@, v);
            nums = nums.push(current);
        }
        values.push(v);
        assert(values_view(values@) =~= ints_json(nums));
        k = k + 1;
    }
    Ok((values, cursor))
}

/// The number of bytes a varint will occupy.
pub fn varint_size(value: u64) -> (n: usize)
    ensures
        n == varint_bytes(value).len(),
{
    varint_len(value)
}

/// The number of bytes a signed varint will occupy.
pub fn signed_varint_size(value: i64) -> (n: usize)
    ensures
        n == signed_varint_bytes(value).len(),
{
    varint_size(zigzag_encode(value))
}

/// The size of the delta encoding of the integers among the values, without encoding (0
/// when there is none).
pub fn delta_encoded_size(values: &[JsonValue]) -> (n: usize)
    requires
        deltas_fit(ints_of(values_view(values@))),
        values@.len() <= usize::MAX / 16,
    ensures
        ints_of(values_view(values@)).len() == 0 ==> n == 0,
        ints_of(values_view(values@)).len() > 0 ==> n == delta_bytes(ints_of(values_view(values@))).len(),
{
    let nums = collect_ints(values);
    if nums.len() == 0 {
        return 0;
    }
    proof {
        lemma_ints_len(values_view(values@));
    }
    let ghost ns = nums@;
    proof {
        crate::varint::lemma_varint_bytes_len(nums.len() as u64);
        crate::varint::lemma_varint_bytes_len(zigzag(nums[0]));
    }
    let mut size = varint_size(nums.len() as u64);
    size = size + signed_varint_size(nums[0]);
    let mut i: usize = 1;
    while i < nums.len()
        invariant
            ns == nums@,
            deltas_fit(ns),
            ns.len() <= usize::MAX / 16,
            1 <= i <= ns.len(),
            size == varint_bytes(ns.len() as u64).len() + signed_varint_bytes(ns[0]).len() + deltas_bytes(ns, i as nat).len(),
            size <= 10 * (i + 1),
        decreases nums.len() - i,
    {
        assert(i64::MIN <= int_delta(ns, i as int) <= i64::MAX);
        let delta = nums[i] - nums[i - 1];
        proof {
            crate::varint::lemma_varint_bytes_len(zigzag(delta));
        }
        size = size + signed_varint_size(delta);
        i = i + 1;
    }
    size
}

proof fn lemma_ints_len(values: Seq<Json>)
    ensures
        ints_of(values).len() <= values.len(),
    decreases values.len(),
{
    if values.len() > 0 {
        lemma_ints_len(values.drop_last());
    }
}

/// The size of the standard encoding of the values as numbers: one tag byte each, plus a
/// signed varint for an integer or 8 bytes for another number.
pub open spec fn original_size(values: Seq<Json>) -> int
    decreases values.len(),
{
    if values.len() == 0 {
        0
    } else {
        original_size(values.drop_last()) + 1 + match values.last() {
            Json::Num(JsonNumber::Int(i)) => signed_varint_bytes(i).len() as int,
            Json::Num(_) => 8,
            _ => 0,
        }
    }
}

/// Calculate the size of the original (non-delta) encoding.
pub fn original_encoded_size(values: &[JsonValue]) -> (n: usize)
    requires
        values@.len() <= usize::MAX / 16,
    ensures
        n == original_size(values_view(values@)),
{
    let mut size: usize = 0;
    let mut i: usize = 0;
    while i < values.len()
        invariant
            i <= values@.len(),
            values@.len() <= usize::MAX / 16,
            size == original_size(values_view(values@.subrange(0, i as int))),
            size <= 11 * i,
        decreases values.len() - i,
    {
        assert(values_view(values@.subrange(0, i + 1)).drop_last() =~= values_view(values@.subrange(0, i as int)));
        size = size + 1;
        match &values[i] {
            JsonValue::Number(JsonNumber::Int(x)) => {
                proof {
                    crate::varint::lemma_varint_bytes_len(zigzag(*x));
                }
                size = size + signed_varint_size(*x);
            },
            JsonValue::Number(_) => {
                size = size + 8;
            },
            _ => {},
        }
        i = i + 1;
    }
    assert(values@.subrange(0, values@.len() as int) =~= values@);
    size
}

proof fn lemma_deltas_prefix(nums: Seq<i64>, j: nat, n: nat)
    requires
        1 <= j <= n <= nums.len(),
    ensures
        deltas_bytes(nums, n) =~= deltas_bytes(nums, j) + deltas_bytes(nums, n).skip(deltas_bytes(nums, j).len() as int),
    decreases n,
{
    if j < n {
        lemma_deltas_prefix(nums, j, (n - 1) as nat);
    }
}

proof fn lemma_parse_deltas(nums: Seq<i64>, s: Seq<u8>, p: nat, j: nat)
    requires
        1 <= j <= nums.len(),
        deltas_fit(nums),
        holds_at(s, p, deltas_bytes(nums, nums.len())),
    ensures
        parse_deltas(s, p + deltas_bytes(nums, j).len(), (nums.len() - j) as nat, nums[j - 1], nums.subrange(0, j as int))
            == Ok::<(Seq<i64>, nat), FluxPackError>((nums, p + deltas_bytes(nums, nums.len()).len())),
    decreases nums.len() - j,
{
    let n = nums.len();
    lemma_deltas_prefix(nums, j, n);
    if j == n {
        assert(nums.subrange(0, j as int) =~= nums);
    } else {
        let pre = deltas_bytes(nums, j);
        let d = int_delta(nums, j as int) as i64;
        let db = signed_varint_bytes(d);
        assert(deltas_bytes(nums, j + 1) == pre + db);
        lemma_deltas_prefix(nums, j + 1, n);
        let all = deltas_bytes(nums, n);
        lemma_holds_split(s, p, pre + db, all.skip((pre + db).len() as int));
        lemma_holds_split(s, p, pre, db);
        lemma_holds_skip(s, p + pre.len(), db);
        lemma_signed_varint_roundtrip(d, s.skip((p + pre.len() + db.len()) as int));
        assert(i64::MIN <= int_delta(nums, j as int) <= i64::MAX);
        assert(vstd::wrapping::i64_specs::wrapping_add(nums[j - 1], d) == nums[j as int]);
        assert(nums.subrange(0, j as int).push(nums[j as int]) =~= nums.subrange(0, (j + 1) as int));
        lemma_parse_deltas(nums, s, p, j + 1);
    }
}

/// Law: a non-empty integer sequence whose neighbouring differences fit in an `i64` reads
/// back from its delta encoding (whatever follows it) as the same integers.
pub proof fn law_delta_roundtrip(nums: Seq<i64>, rest: Seq<u8>)
    requires
        nums.len() > 0,
        nums.len() <= u64::MAX,
        deltas_fit(nums),
    ensures
        parse_delta(delta_bytes(nums) + rest) == Ok::<(Seq<i64>, nat), FluxPackError>((nums, delta_bytes(nums).len())),
{
    let b = delta_bytes(nums);
    let s = b + rest;
    let vn = varint_bytes(nums.len() as u64);
    let v0 = signed_varint_bytes(nums[0]);
    let db = deltas_bytes(nums, nums.len());
    assert(holds_at(s, 0, vn + v0 + db)) by {
        assert(s.subrange(0, b.len() as int) =~= vn + v0 + db);
    }
    lemma_holds_split(s, 0, vn + v0, db);
    lemma_holds_split(s, 0, vn, v0);
    lemma_varint_at(s, 0, nums.len() as u64);
    assert(s.skip(0) =~= s);
    lemma_holds_skip(s, vn.len(), v0);
    lemma_signed_varint_roundtrip(nums[0], s.skip((vn.len() + v0.len()) as int));
    assert(deltas_bytes(nums, 1) =~= Seq::<u8>::empty());
    assert(nums.subrange(0, 1) =~= seq![nums[0]]);
    lemma_parse_deltas(nums, s, vn.len() + v0.len(), 1);
}

/// Law: encoding the integers of values that are all integers, then decoding, gives the
/// values back.
pub proof fn law_delta_values_roundtrip(values: Seq<Json>, rest: Seq<u8>)
    requires
        values.len() > 0,
        values.len() <= u64::MAX,
        forall|i: int| 0 <= i < values.len() ==> (#[trigger] values[i]) matches Json::Num(JsonNumber::Int(_)),
        deltas_fit(ints_of(values)),
    ensures
        parse_delta(delta_bytes(ints_of(values)) + rest) matches Ok((nums, _)) && ints_json(nums) == values,
{
    lemma_all_ints(values);
    law_delta_roundtrip(ints_of(values), rest);
    assert(ints_json(ints_of(values)) =~= values);
}

proof fn lemma_all_ints(values: Seq<Json>)
    requires
        forall|i: int| 0 <= i < values.len() ==> (#[trigger] values[i]) matches Json::Num(JsonNumber::Int(_)),
    ensures
        ints_of(values).len() == values.len(),
        forall|i: int| 0 <= i < values.len() ==> values[i] == Json::Num(JsonNumber::Int(#[trigger] ints_of(values)[i])),
    decreases values.len(),
{
    if values.len() > 0 {
        let pre = values.drop_last();
        assert forall|i: int| 0 <= i < pre.len() implies (#[trigger] pre[i]) matches Json::Num(JsonNumber::Int(_)) by {
            assert(pre[i] == values[i]);
        }
        lemma_all_ints(pre);
        assert(values[values.len() - 1] matches Json::Num(JsonNumber::Int(_)));
        assert forall|i: int| 0 <= i < values.len() implies values[i] == Json::Num(JsonNumber::Int(#[trigger] ints_of(values)[i])) by {
            if i < pre.len() {
                assert(values[i] == pre[i]);
            }
        }
    }
}

} // verus!
