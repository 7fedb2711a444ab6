//! Building strings from bytes: joining texts, hexadecimal and decimal renderings.
use vstd::prelude::*;
use vstd::utf8::{valid_utf8, decode_utf8, encode_utf8, encode_scalar, encode_utf8_valid_utf8, encode_utf8_decode_utf8,
    is_ascii_chars, is_ascii_chars_encode_utf8};
use crate::outside::utf8_str;
use crate::wire::push_bytes;

verus! {

/// The string whose UTF-8 bytes are `bytes`.
pub fn string_from_utf8(bytes: &[u8]) -> (s: String)
    requires
        valid_utf8(bytes@),
    ensures
        s@ == decode_utf8(bytes@),
{
    assert(bytes@.subrange(0, bytes@.len() as int) =~= bytes@);
    match utf8_str(bytes, 0, bytes.len()) {
        Ok(x) => x.to_owned(),
        Err(_) => String::new(),
    }
}

/// The characters whose codes are the (ASCII) bytes.
pub open spec fn ascii_chars(bytes: Seq<u8>) -> Seq<char> {
    Seq::new(bytes.len(), |i: int| bytes[i] as char)
}

/// Every byte is ASCII.
pub open spec fn all_ascii(bytes: Seq<u8>) -> bool {
    forall|i: int| 0 <= i < bytes.len() ==> #[trigger] bytes[i] < 0x80
}

/// ASCII bytes are the UTF-8 encoding of the characters with their codes.
pub proof fn lemma_ascii_utf8(bytes: Seq<u8>)
    requires
        all_ascii(bytes),
    ensures
        encode_utf8(ascii_chars(bytes)) == bytes,
        valid_utf8(bytes),
        decode_utf8(bytes) == ascii_chars(bytes),
{
    let c = ascii_chars(bytes);
    assert forall|i: int| 0 <= i < c.len() implies '\0' <= #[trigger] c[i] <= '\u{7f}' by {
        assert(bytes[i] < 0x80);
    }
    assert(is_ascii_chars(c));
    is_ascii_chars_encode_utf8(c);
    assert forall|i: int| 0 <= i < bytes.len() implies encode_utf8(c)[i] == bytes[i] by {
        assert(c[i] as u8 == encode_utf8(c)[i]);
        assert(bytes[i] < 0x80);
        assert((bytes[i] as char) as u8 == bytes[i]);
    }
    assert(encode_utf8(c) =~= bytes);
    encode_utf8_valid_utf8(c);
    encode_utf8_decode_utf8(c);
}

/// Encoding a concatenation is concatenating the encodings.
pub proof fn lemma_encode_utf8_concat(a: Seq<char>, b: Seq<char>)
    ensures
        encode_utf8(a + b) == encode_utf8(a) + encode_utf8(b),
    decreases a.len(),
{
    if a.len() == 0 {
        assert(a + b =~= b);
    } else {
        assert((a + b).drop_first() =~= a.drop_first() + b);
        assert((a + b)[0] == a[0]);
        lemma_encode_utf8_concat(a.drop_first(), b);
        assert(encode_utf8(a + b) =~= encode_utf8(a) + encode_utf8(b));
    }
}

/// The two strings one after the other.
pub fn concat_str(a: &str, b: &str) -> (s: String)
    ensures
        s@ == a@ + b@,
{
    let mut bytes: Vec<u8> = Vec::new();
    push_bytes(&mut bytes, a.as_bytes());
    push_bytes(&mut bytes, b.as_bytes());
    proof {
        lemma_encode_utf8_concat(a@, b@);
        encode_utf8_valid_utf8(a@ + b@);
        encode_utf8_decode_utf8(a@ + b@);
    }
    assert(bytes@ == encode_utf8(a@ + b@));
    string_from_utf8(bytes.as_slice())
}

/// The lowercase hexadecimal digit of a value below 16.
pub open spec fn hex_digit(v: u8) -> u8 {
    if v < 10 {
        (0x30 + v) as u8
    } else {
        (0x61 + v - 10) as u8
    }
}

/// Each byte as two lowercase hexadecimal digits.
pub open spec fn hex_bytes(bytes: Seq<u8>) -> Seq<u8>
    decreases bytes.len(),
{
    if bytes.len() == 0 {
        Seq::empty()
    } else {
        hex_bytes(bytes.drop_last()) + seq![hex_digit(bytes.last() / 16), hex_digit(bytes.last() % 16)]
    }
}

proof fn lemma_hex_ascii(bytes: Seq<u8>)
    ensures
        all_ascii(hex_bytes(bytes)),
        hex_bytes(bytes).len() == 2 * bytes.len(),
    decreases bytes.len(),
{
    if bytes.len() > 0 {
        lemma_hex_ascii(bytes.drop_last());
        let h = hex_bytes(bytes);
        let p = hex_bytes(bytes.drop_last());
        assert forall|i: int| 0 <= i < h.len() implies #[trigger] h[i] < 0x80 by {
            if i < p.len() {
                assert(h[i] == p[i]);
            }
        }
    }
}

/// The bytes as a string of lowercase hexadecimal digits, two per byte.
pub fn hex_string(bytes: &[u8]) -> (s: String)
    ensures
        s@ == ascii_chars(hex_bytes(bytes@)),
{
    let mut out: Vec<u8> = Vec::new();
    let mut i: usize = 0;
    while i < bytes.len()
        invariant
            i <= bytes@.len(),
            out@ == hex_bytes(bytes@.subrange(0, i as int)),
        decreases bytes.len() - i,
    {
        let b = bytes[i];
        let hi = b / 16;
        let lo = b % 16;
        out.push(if hi < 10 { 0x30 + hi } else { 0x61 + hi - 10 });
        out.push(if lo < 10 { 0x30 + lo } else { 0x61 + lo - 10 });
        assert(bytes@.subrange(0, i + 1).drop_last() =~= bytes@.subrange(0, i as int));
        i = i + 1;
        assert(out@ =~= hex_bytes(bytes@.subrange(0, i as int)));
    }
    assert(bytes@.subrange(0, bytes@.len() as int) =~= bytes@);
    proof {
        lemma_hex_ascii(bytes@);
        lemma_ascii_utf8(out@);
    }
    string_from_utf8(out.as_slice())
}

/// The decimal digits of `n`, most significant first.
pub open spec fn decimal_bytes(n: u64) -> Seq<u8>
    decreases n,
{
    if n < 10 {
        seq![(0x30 + n) as u8]
    } else {
        decimal_bytes(n / 10) + seq![(0x30 + n % 10) as u8]
    }
}

proof fn lemma_decimal_ascii(n: u64)
    ensures
        all_ascii(decimal_bytes(n)),
        1 <= decimal_bytes(n).len(),
    decreases n,
{
    if n >= 10 {
        lemma_decimal_ascii(n / 10);
        let d = decimal_bytes(n);
        let p = decimal_bytes(n / 10);
        assert forall|i: int| 0 <= i < d.len() implies #[trigger] d[i] < 0x80 by {
            if i < p.len() {
                assert(d[i] == p[i]);
            }
        }
    }
}

/// Appends the decimal digits of `n`.
pub fn push_decimal(n: u64, out: &mut Vec<u8>)
    ensures
        final(out)@ == old(out)@ + decimal_bytes(n),
    decreases n,
{
    if n >= 10 {
        push_decimal(n / 10, out);
    }
    out.push((0x30 + n % 10) as u8);
    assert(final(out)@ =~= old(out)@ + decimal_bytes(n)) by {
        if n < 10 {
            assert(n % 10 == n);
        }
    }
}

/// The text `prefix` followed by the decimal digits of `n`.
pub fn with_decimal(prefix: &str, n: u64) -> (s: String)
    ensures
        s@ == prefix@ + ascii_chars(decimal_bytes(n)),
{
    let mut bytes: Vec<u8> = Vec::new();
    push_bytes(&mut bytes, prefix.as_bytes());
    let ghost pre = bytes@;
    push_decimal(n, &mut bytes);
    proof {
        lemma_decimal_ascii(n);
        lemma_ascii_utf8(decimal_bytes(n));
        lemma_encode_utf8_concat(prefix@, ascii_chars(decimal_bytes(n)));
        encode_utf8_valid_utf8(prefix@ + ascii_chars(decimal_bytes(n)));
        encode_utf8_decode_utf8(prefix@ + ascii_chars(decimal_bytes(n)));
    }
    assert(bytes@ == encode_utf8(prefix@ + ascii_chars(decimal_bytes(n))));
    string_from_utf8(bytes.as_slice())
}

/// A millisecond timestamp as `seconds.millisZ`, the milliseconds on three digits.
pub open spec fn timestamp_bytes(ts: u64) -> Seq<u8> {
    let millis = ts % 1000;
    decimal_bytes(ts / 1000) + seq![0x2Eu8, (0x30 + millis / 100) as u8, (0x30 + millis / 10 % 10) as u8,
        (0x30 + millis % 10) as u8, 0x5Au8]
}

/// A millisecond timestamp as `seconds.millisZ`, the milliseconds on three digits.
pub fn timestamp_string(ts: u64) -> (s: String)
    ensures
        s@ == ascii_chars(timestamp_bytes(ts)),
{
    let secs = ts / 1000;
    let millis = ts % 1000;
    let mut bytes: Vec<u8> = Vec::new();
    push_decimal(secs, &mut bytes);
    bytes.push(0x2E);
    bytes.push((0x30 + millis / 100) as u8);
    bytes.push((0x30 + millis / 10 % 10) as u8);
    bytes.push((0x30 + millis % 10) as u8);
    bytes.push(0x5A);
    assert(bytes@ =~= timestamp_bytes(ts));
    proof {
        lemma_decimal_ascii(secs);
        let t = timestamp_bytes(ts);
        let d = decimal_bytes(secs);
        assert forall|i: int| 0 <= i < t.len() implies #[trigger] t[i] < 0x80 by {
            if i < d.len() {
                assert(t[i] == d[i]);
            }
        }
        lemma_ascii_utf8(t);
    }
    string_from_utf8(bytes.as_slice())
}

/// Whether two strings have the same characters.
pub fn str_eq(a: &str, b: &str) -> (r: bool)
    ensures
        r == (a@ == b@),
{
    let x = a.as_bytes();
    let y = b.as_bytes();
    if x.len() != y.len() {
        return false;
    }
    let mut i: usize = 0;
    while i < x.len()
        invariant
            i <= x@.len(),
            x@.len() == y@.len(),
            x@ == encode_utf8(a@),
            y@ == encode_utf8(b@),
            forall|j: int| 0 <= j < i ==> x@[j] == y@[j],
        decreases x.len() - i,
    {
        if x[i] != y[i] {
            return false;
        }
        i = i + 1;
    }
    proof {
        assert(x@ =~= y@);
        encode_utf8_decode_utf8(a@);
        encode_utf8_decode_utf8(b@);
    }
    true
}

} // verus!
