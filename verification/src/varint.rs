//! LEB128 varints (Protocol Buffers compatible) and ZigZag signed varints.
use vstd::prelude::*;
use crate::error::FluxPackError;

verus! {

/// The LEB128 bytes of `v`: seven bits per byte, low group first, high bit set on every
/// byte but the last.
pub open spec fn varint_bytes(v: u64) -> Seq<u8>
    decreases v,
{
    if v < 0x80 {
        seq![v as u8]
    } else {
        proof {
            assert(v >= 0x80 ==> (v >> 7) < v) by (bit_vector);
        }
        seq![((v & 0x7F) | 0x80) as u8] + varint_bytes(v >> 7)
    }
}

/// Reading a varint from `s`, where `acc` holds the bits of the first `i` bytes.
pub open spec fn varint_read(s: Seq<u8>, i: nat, acc: u64) -> Result<(u64, nat), FluxPackError>
    decreases 10 - i,
{
    if i >= s.len() {
        Err(FluxPackError::BufferOverrun)
    } else {
        let b = s[i as int];
        let acc2 = acc | (((b & 0x7F) as u64) << ((7 * i) as u64));
        if b & 0x80 == 0 {
            Ok((acc2, i + 1))
        } else if 7 * (i + 1) >= 64 {
            Err(FluxPackError::VarintOverflow)
        } else {
            varint_read(s, i + 1, acc2)
        }
    }
}

/// What `decode_varint` gives on `s`: the value and the number of bytes it took.
pub open spec fn varint_parse(s: Seq<u8>) -> Result<(u64, nat), FluxPackError> {
    varint_read(s, 0, 0)
}

/// ZigZag: 0, -1, 1, -2, 2, ... map to 0, 1, 2, 3, 4, ...
pub open spec fn zigzag(n: i64) -> u64 {
    if n >= 0 {
        (2 * n) as u64
    } else {
        (-2 * n - 1) as u64
    }
}

/// The inverse of `zigzag`.
pub open spec fn unzigzag(u: u64) -> i64 {
    if u % 2 == 0 {
        (u / 2) as i64
    } else {
        (-((u / 2) as int) - 1) as i64
    }
}

/// The bytes of a signed varint: the varint of the ZigZag image.
pub open spec fn signed_varint_bytes(n: i64) -> Seq<u8> {
    varint_bytes(zigzag(n))
}

/// What `decode_signed_varint` gives on `s`.
pub open spec fn signed_varint_parse(s: Seq<u8>) -> Result<(i64, nat), FluxPackError> {
    match varint_parse(s) {
        Ok((u, n)) => Ok((unzigzag(u), n)),
        Err(e) => Err(e),
    }
}

/// The number that little-endian 7-bit groups hold: the low seven bits of each byte, the
/// first byte lowest.
pub open spec fn groups_value(b: Seq<u8>) -> nat
    decreases b.len(),
{
    if b.len() == 0 {
        0
    } else {
        ((b[0] & 0x7F) as nat) + 128 * groups_value(b.drop_first())
    }
}

/// How one byte of a varint holds the low seven bits of a value.
proof fn lemma_group_bits(v: u64)
    by (bit_vector)
    ensures
        (((v & 0x7F) | 0x80) as u8) & 0x7F == (v & 0x7F) as u8,
        ((v & 0x7F) | 0x80) as u8 >= 0x80,
        (v & 0x7F) < 0x80,
        v == (v & 0x7F) + 128 * (v >> 7),
        v >= 0x80 ==> (v >> 7) < v,
        v < 0x80 ==> (v as u8) & 0x7F == v as u8 && (v as u8) < 0x80,
{
}

/// Law: the varint of `v` holds `v` in its 7-bit groups, lowest first; every byte but the
/// last has the continuation bit (0x80) set, and the last has it clear.
pub proof fn law_varint_groups(v: u64)
    ensures
        groups_value(varint_bytes(v)) == v,
        varint_bytes(v).len() >= 1,
        forall|i: int| 0 <= i < varint_bytes(v).len() - 1 ==> varint_bytes(v)[i] >= 0x80,
        varint_bytes(v).last() < 0x80,
    decreases v,
{
    lemma_group_bits(v);
    let b = varint_bytes(v);
    if v < 0x80 {
        assert(b.drop_first() =~= Seq::<u8>::empty());
        assert(groups_value(b.drop_first()) == 0);
    } else {
        law_varint_groups(v >> 7);
        let rest = varint_bytes(v >> 7);
        assert(b.drop_first() =~= rest);
        assert(b[0] == ((v & 0x7F) | 0x80) as u8);
        assert forall|i: int| 0 <= i < b.len() - 1 implies b[i] >= 0x80 by {
            if i > 0 {
                assert(b[i] == rest[i - 1]);
            }
        }
        assert(b.last() == rest.last());
    }
}

pub proof fn lemma_varint_bytes_len(v: u64)
    ensures
        1 <= varint_bytes(v).len() <= 10,
        v < 0x80 <==> varint_bytes(v).len() == 1,
        varint_bytes(v)[varint_bytes(v).len() - 1] < 0x80,
        forall|j: int| 0 <= j < varint_bytes(v).len() - 1 ==> varint_bytes(v)[j] >= 0x80,
    decreases v,
{
    assert(v >> 63u64 < 0x80) by (bit_vector);
    lemma_varint_bytes_len_k(v, 9);
}

proof fn lemma_varint_bytes_len_k(v: u64, k: u64)
    requires
        k <= 9,
        (v >> ((7 * k) as u64)) < 0x80,
    ensures
        1 <= varint_bytes(v).len() <= k + 1,
        v < 0x80 <==> varint_bytes(v).len() == 1,
        varint_bytes(v)[varint_bytes(v).len() - 1] < 0x80,
        forall|j: int| 0 <= j < varint_bytes(v).len() - 1 ==> varint_bytes(v)[j] >= 0x80,
    decreases v,
{
    if v >= 0x80 {
        assert(v >= 0x80 ==> (v >> 7) < v) by (bit_vector);
        assert(((v & 0x7F) | 0x80) as u8 >= 0x80) by (bit_vector);
        let sh = (7 * k) as u64;
        assert(k >= 1) by {
            if k == 0 {
                assert(sh == 0);
                assert(v >> 0u64 == v) by (bit_vector);
            }
        }
        let sh2 = (7 * (k - 1)) as u64;
        assert((v >> 7) >> sh2 == v >> sh) by (bit_vector)
            requires sh == sh2 + 7, sh2 <= 56;
        lemma_varint_bytes_len_k(v >> 7, (k - 1) as u64);
        let t = varint_bytes(v >> 7);
        assert(varint_bytes(v) == seq![((v & 0x7F) | 0x80) as u8] + t);
    }
}

/// Reading back the bytes of `v` gives `v`, whatever follows them.
pub proof fn lemma_varint_roundtrip(v: u64, rest: Seq<u8>)
    ensures
        varint_parse(varint_bytes(v) + rest) == Ok::<(u64, nat), FluxPackError>((v, varint_bytes(v).len())),
{
    let s = varint_bytes(v) + rest;
    assert(s.subrange(0, s.len() as int) == s);
    assert((0u64 >> 0u64) == 0 && (v << 0u64) >> 0u64 == v && (0u64 | (v << 0u64)) == v) by (bit_vector);
    lemma_varint_read(s, 0, 0, v, rest);
}

proof fn lemma_varint_read(s: Seq<u8>, i: nat, acc: u64, v: u64, rest: Seq<u8>)
    requires
        i <= 9,
        i <= s.len(),
        s.subrange(i as int, s.len() as int) == varint_bytes(v) + rest,
        acc >> ((7 * i) as u64) == 0,
        (v << ((7 * i) as u64)) >> ((7 * i) as u64) == v,
    ensures
        varint_read(s, i, acc) == Ok::<(u64, nat), FluxPackError>(
            ((acc | (v << ((7 * i) as u64))), i + varint_bytes(v).len()),
        ),
    decreases v,
{
    let sh = (7 * i) as u64;
    assert(sh <= 63);
    let sub = s.subrange(i as int, s.len() as int);
    lemma_varint_bytes_len(v);
    assert(sub.len() >= 1);
    assert(s[i as int] == sub[0]);
    if v < 0x80 {
        let b = v as u8;
        assert(varint_bytes(v) == seq![b]);
        assert(sub[0] == b);
        assert(b & 0x80 == 0 && ((b & 0x7F) as u64) == v) by (bit_vector) requires v < 0x80, b == v as u8;
    } else {
        let b = ((v & 0x7F) | 0x80) as u8;
        assert(v >= 0x80 ==> (v >> 7) < v) by (bit_vector);
        let t = varint_bytes(v >> 7);
        assert(varint_bytes(v) == seq![b] + t);
        assert(sub[0] == b);
        assert(b & 0x80 != 0 && ((b & 0x7F) as u64) == v & 0x7F) by (bit_vector)
            requires b == ((v & 0x7F) | 0x80) as u8;
        assert(sh <= 56) by (bit_vector)
            requires sh <= 63, (v << sh) >> sh == v, v >= 0x80;
        assert(i <= 8);
        let acc2 = acc | (((b & 0x7F) as u64) << sh);
        let sh2 = (7 * (i + 1)) as u64;
        assert(sh2 == sh + 7);
        assert(acc2 >> sh2 == 0
            && ((v >> 7) << sh2) >> sh2 == v >> 7
            && (acc2 | ((v >> 7) << sh2)) == (acc | (v << sh))) by (bit_vector)
            requires
                sh <= 56, sh2 == sh + 7, acc >> sh == 0, (v << sh) >> sh == v,
                acc2 == acc | ((v & 0x7F) << sh);
        let sub2 = s.subrange((i + 1) as int, s.len() as int);
        assert(sub2 == t + rest) by {
            assert(sub2 =~= sub.subrange(1, sub.len() as int));
            assert((seq![b] + t + rest).subrange(1, sub.len() as int) =~= t + rest);
        }
        lemma_varint_read(s, i + 1, acc2, v >> 7, rest);
    }
}

/// Law: ZigZag decoding undoes ZigZag encoding, for every `i64`.
pub proof fn law_zigzag_roundtrip(n: i64)
    ensures
        unzigzag(zigzag(n)) == n,
{
}

/// A signed varint reads back as the integer written, whatever follows it.
pub proof fn lemma_signed_varint_roundtrip(n: i64, rest: Seq<u8>)
    ensures
        signed_varint_parse(signed_varint_bytes(n) + rest)
            == Ok::<(i64, nat), FluxPackError>((n, signed_varint_bytes(n).len())),
{
    lemma_varint_roundtrip(zigzag(n), rest);
}

/// Encodes a u64 as a LEB128 varint (compatible with Protocol Buffers).
pub fn encode_varint(value: u64, buffer: &mut Vec<u8>)
    ensures
        final(buffer)@ == old(buffer)@ + varint_bytes(value),
{
    let mut value = value;
    let ghost orig = value;
    while value >= 0x80
        invariant
            buffer@ + varint_bytes(value) == old(buffer)@ + varint_bytes(orig),
        decreases value,
    {
        let b = ((value & 0x7F) | 0x80) as u8;
        assert(value >= 0x80 ==> (value >> 7) < value) by (bit_vector);
        assert(varint_bytes(value) == seq![b] + varint_bytes(value >> 7));
        buffer.push(b);
        value = value >> 7;
        assert(buffer@ + varint_bytes(value) == old(buffer)@ + varint_bytes(orig));
    }
    buffer.push(value as u8);
}

/// Decodes a varint that starts at `pos` in `data`; returns (value, bytes consumed).
pub fn decode_varint_at(data: &[u8], pos: usize) -> (r: Result<(u64, usize), FluxPackError>)
    requires
        pos <= data@.len(),
    ensures
        match r {
            Ok((v, n)) => varint_parse(data@.skip(pos as int)) == Ok::<(u64, nat), FluxPackError>((v, n as nat)),
            Err(e) => varint_parse(data@.skip(pos as int)) == Err::<(u64, nat), FluxPackError>(e),
        },
        r matches Ok((v, n)) ==> 1 <= n <= 10 && pos + n <= data@.len(),
{
    let ghost s = data@.skip(pos as int);
    let mut result: u64 = 0;
    let mut shift: u64 = 0;
    let mut consumed: usize = 0;
    while consumed < data.len() - pos
        invariant
            pos <= data@.len(),
            s == data@.skip(pos as int),
            consumed <= 9,
            shift == 7 * consumed,
            varint_read(s, consumed as nat, result) == varint_read(s, 0, 0),
        decreases data.len() - pos - consumed,
    {
        let byte = data[pos + consumed];
        assert(byte == s[consumed as int]);
        result = result | (((byte & 0x7F) as u64) << shift);
        consumed = consumed + 1;
        if byte & 0x80 == 0 {
            return Ok((result, consumed));
        }
        shift = shift + 7;
        if shift >= 64 {
            return Err(FluxPackError::VarintOverflow);
        }
    }
    Err(FluxPackError::BufferOverrun)
}

/// Decodes a u64 from a LEB128 varint. Returns (value, bytes_consumed).
pub fn decode_varint(data: &[u8]) -> (r: Result<(u64, usize), FluxPackError>)
    ensures
        match r {
            Ok((v, n)) => varint_parse(data@) == Ok::<(u64, nat), FluxPackError>((v, n as nat)),
            Err(e) => varint_parse(data@) == Err::<(u64, nat), FluxPackError>(e),
        },
{
    assert(data@.skip(0) == data@);
    decode_varint_at(data, 0)
}

/// Returns the number of bytes a varint will occupy when encoded.
pub fn varint_len(value: u64) -> (n: usize)
    ensures
        n == varint_bytes(value).len(),
{
    if value == 0 {
        return 1;
    }
    let mut value = value;
    let ghost orig = value;
    let mut len: usize = 0;
    proof {
        lemma_varint_bytes_len(value);
    }
    while value > 0
        invariant
            value > 0 ==> len + varint_bytes(value).len() == varint_bytes(orig).len(),
            value == 0 ==> len == varint_bytes(orig).len(),
            len + 1 <= 10 || value == 0,
            varint_bytes(orig).len() <= 10,
        decreases value,
    {
        assert(value > 0 ==> (value >> 7) < value) by (bit_vector);
        proof {
            lemma_varint_bytes_len(value);
            if value >= 0x80 {
                assert(varint_bytes(value).len() == 1 + varint_bytes(value >> 7).len());
            } else {
                assert(value >> 7 == 0) by (bit_vector) requires value < 0x80;
            }
        }
        let ghost before = varint_bytes(value).len();
        assert((value >> 7 == 0) == (value < 0x80)) by (bit_vector);
        len = len + 1;
        value = value >> 7;
        assert(value == 0 ==> before == 1);
    }
    len
}

/// ZigZag-encodes a signed integer.
pub fn zigzag_encode(n: i64) -> (r: u64)
    ensures
        r == zigzag(n),
{
    if n >= 0 {
        (n as u64) * 2
    } else {
        let m: i64 = -(n + 1);
        (m as u64) * 2 + 1
    }
}

/// Undoes `zigzag_encode`.
pub fn zigzag_decode(u: u64) -> (r: i64)
    ensures
        r == unzigzag(u),
{
    let half = u / 2;
    if u % 2 == 0 {
        half as i64
    } else {
        -(half as i64) - 1
    }
}

/// Encodes a signed integer as the varint of its ZigZag image.
pub fn encode_signed_varint(n: i64, buffer: &mut Vec<u8>)
    ensures
        final(buffer)@ == old(buffer)@ + signed_varint_bytes(n),
{
    encode_varint(zigzag_encode(n), buffer);
}

/// Decodes a signed varint that starts at `pos` in `data`.
pub fn decode_signed_varint_at(data: &[u8], pos: usize) -> (r: Result<(i64, usize), FluxPackError>)
    requires
        pos <= data@.len(),
    ensures
        match r {
            Ok((v, n)) => signed_varint_parse(data@.skip(pos as int)) == Ok::<(i64, nat), FluxPackError>((v, n as nat)),
            Err(e) => signed_varint_parse(data@.skip(pos as int)) == Err::<(i64, nat), FluxPackError>(e),
        },
        r matches Ok((v, n)) ==> 1 <= n <= 10 && pos + n <= data@.len(),
{
    match decode_varint_at(data, pos) {
        Ok((u, n)) => Ok((zigzag_decode(u), n)),
        Err(e) => Err(e),
    }
}

/// Decodes a signed varint. Returns (value, bytes_consumed).
pub fn decode_signed_varint(data: &[u8]) -> (r: Result<(i64, usize), FluxPackError>)
    ensures
        match r {
            Ok((v, n)) => signed_varint_parse(data@) == Ok::<(i64, nat), FluxPackError>((v, n as nat)),
            Err(e) => signed_varint_parse(data@) == Err::<(i64, nat), FluxPackError>(e),
        },
{
    assert(data@.skip(0) == data@);
    decode_signed_varint_at(data, 0)
}

} // verus!
