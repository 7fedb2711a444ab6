//! IEEE-754 numbers held by their bit patterns: widening a single to a double, and
//! narrowing a double to a single when that loses nothing.
use vstd::prelude::*;
use vstd::arithmetic::power2::pow2;

verus! {

/// Whether the single with these bits is finite (not an infinity or a NaN).
pub open spec fn f32_bits_finite(b: u32) -> bool {
    (b >> 23u32) & 0xFF != 0xFF
}

/// The position of the highest set bit of a non-zero single mantissa.
pub open spec fn high_bit(m: u32) -> u32 {
    choose|p: u32| p < 23 && (m >> p) == 1
}

/// The double with the same value as the single `b`: the sign kept, a normal number's
/// exponent rebiased (127 to 1023) and its mantissa moved to the top of 52 bits, a
/// subnormal single normalised (every single is a normal double), zeros kept, and the
/// infinities and NaNs kept with their payload moved as for a normal number.
pub open spec fn widen_f32(b: u32) -> u64 {
    let sign = ((b >> 31u32) as u64) << 63u64;
    let exp = (b >> 23u32) & 0xFF;
    let mant = (b & 0x7FFFFF) as u64;
    if exp == 0xFF {
        sign | (0x7FFu64 << 52u64) | (mant << 29u64)
    } else if exp != 0 {
        sign | (((exp + 896) as u64) << 52u64) | (mant << 29u64)
    } else if mant == 0 {
        sign
    } else {
        let p = high_bit(mant as u32) as u64;
        sign | (((p + 874) as u64) << 52u64) | (((mant - (1u64 << p)) as u64) << ((52 - p) as u64))
    }
}

proof fn lemma_high_bit_unique(m: u32, p: u32)
    requires
        p < 23,
        (m >> p) == 1,
    ensures
        high_bit(m) == p,
{
    let q = high_bit(m);
    assert(q < 23 && (m >> q) == 1);
    assert(p == q) by (bit_vector)
        requires
            p < 23, q < 23, (m >> p) == 1, (m >> q) == 1;
}

/// Widens a single to the double with the same value.
pub fn widen_f32_bits(b: u32) -> (r: u64)
    ensures
        r == widen_f32(b),
{
    let sign: u64 = ((b >> 31u32) as u64) << 63u64;
    let exp: u32 = (b >> 23u32) & 0xFF;
    let mant: u64 = (b & 0x7FFFFF) as u64;
    if exp == 0xFF {
        sign | (0x7FFu64 << 52u64) | (mant << 29u64)
    } else if exp != 0 {
        assert(exp <= 0xFF) by (bit_vector)
            requires exp == (b >> 23u32) & 0xFF;
        sign | (((exp + 896) as u64) << 52u64) | (mant << 29u64)
    } else if mant == 0 {
        sign
    } else {
        let m32: u32 = b & 0x7FFFFF;
        assert(m32 as u64 == mant);
        assert(m32 != 0 && m32 < 0x800000) by (bit_vector)
            requires m32 == b & 0x7FFFFF, (m32 as u64) != 0u64;
        let mut p: u32 = 22;
        assert((m32 >> 23u32) == 0) by (bit_vector)
            requires m32 < 0x800000;
        while (m32 >> p) == 0
            invariant
                p <= 22,
                m32 != 0,
                m32 < 0x800000,
                (m32 >> ((p + 1) as u32)) == 0,
            decreases p,
        {
            assert(p != 0) by (bit_vector)
                requires m32 != 0, (m32 >> p) == 0;
            p = p - 1;
        }
        assert((m32 >> p) == 1) by (bit_vector)
            requires (m32 >> p) != 0, (m32 >> ((p + 1) as u32)) == 0, p <= 22;
        proof {
            lemma_high_bit_unique(m32, p);
        }
        let pp: u64 = p as u64;
        assert((1u64 << pp) <= mant) by (bit_vector)
            requires (m32 >> p) == 1, mant == m32 as u64, pp == p as u64, p <= 22;
        sign | ((pp + 874) << 52u64) | ((mant - (1u64 << pp)) << (52 - pp))
    }
}

/// The number of significant bits of `n` (0 for 0).
pub open spec fn bit_len(n: nat) -> nat
    decreases n,
{
    if n == 0 {
        0
    } else {
        1 + bit_len(n / 2)
    }
}

/// `n / 2^k` rounded to the nearest integer, ties to the even one.
pub open spec fn round_half_even(n: nat, k: nat) -> nat {
    let q = n / pow2(k);
    let r = n % pow2(k);
    if 2 * r > pow2(k) || (2 * r == pow2(k) && q % 2 == 1) {
        q + 1
    } else {
        q
    }
}

/// The bits of the double with exponent `e` (unbiased) and significand `sig` in
/// `[2^52, 2^53)`, positive.
pub open spec fn f64_bits_of(e: int, sig: nat) -> int {
    (e + 1023) * pow2(52) + (sig - pow2(52))
}

/// The double nearest to the integer `n` (ties to even), by its bits: `n` rounded to 53
/// significant bits.
pub open spec fn u64_to_f64(n: u64) -> u64 {
    if n == 0 {
        0
    } else {
        let len = bit_len(n as nat);
        if len <= 53 {
            f64_bits_of(len - 1, (n * pow2((53 - len) as nat)) as nat) as u64
        } else {
            let q = round_half_even(n as nat, (len - 53) as nat);
            if q == pow2(53) {
                f64_bits_of(len as int, pow2(52)) as u64
            } else {
                f64_bits_of(len - 1, q) as u64
            }
        }
    }
}

/// The double nearest to the integer `n` (ties to even), by its bits: the sign, then the
/// magnitude as for `u64_to_f64`.
pub open spec fn i64_to_f64(n: i64) -> u64 {
    if n >= 0 {
        u64_to_f64(n as u64)
    } else {
        (0x8000_0000_0000_0000u64 + u64_to_f64((-(n as int)) as u64)) as u64
    }
}

proof fn lemma_bit_len(n: nat, l: nat)
    requires
        l >= 1,
        pow2((l - 1) as nat) <= n < pow2(l),
    ensures
        bit_len(n) == l,
    decreases l,
{
    vstd::arithmetic::power2::lemma_pow2_unfold(l);
    if l > 1 {
        vstd::arithmetic::power2::lemma_pow2_unfold((l - 1) as nat);
        let p = pow2((l - 2) as nat);
        assert(pow2((l - 1) as nat) == 2 * p);
        assert(pow2(l) == 4 * p);
        assert(p <= n / 2 < 2 * p);
        lemma_bit_len(n / 2, (l - 1) as nat);
        assert(bit_len(n) == 1 + bit_len(n / 2));
    } else {
        vstd::arithmetic::power2::lemma2_to64();
        assert(n == 1);
        assert(bit_len(0) == 0);
        assert(bit_len(1) == 1 + bit_len(0));
    }
}

/// The position just above the highest set bit of a non-zero `n`.
fn bit_length_u64(n: u64) -> (l: u64)
    requires
        n != 0,
    ensures
        1 <= l <= 64,
        l == bit_len(n as nat),
        (n >> ((l - 1) as u64)) == 1,
        pow2((l - 1) as nat) <= n < pow2(l as nat),
{
    let mut l: u64 = 64;
    while (n >> ((l - 1) as u64)) == 0
        invariant
            1 <= l <= 64,
            n != 0,
            l == 64 || (n >> l) == 0,
        decreases l,
    {
        assert(l != 1) by (bit_vector)
            requires n != 0, (n >> ((l - 1) as u64)) == 0, 1 <= l <= 64;
        l = l - 1;
    }
    assert((n >> ((l - 1) as u64)) == 1) by (bit_vector)
        requires 1 <= l <= 64, (n >> ((l - 1) as u64)) != 0, l == 64 || (n >> l) == 0;
    proof {
        vstd::bits::lemma_u64_shr_is_div(n, (l - 1) as u64);
        vstd::arithmetic::power2::lemma_pow2_pos((l - 1) as nat);
        vstd::arithmetic::power2::lemma_pow2_unfold(l as nat);
        let p = pow2((l - 1) as nat);
        assert(n as nat / p == 1);
        assert(p <= n) by (nonlinear_arith) requires n as nat / p == 1, p > 0;
        assert(n < 2 * p) by (nonlinear_arith) requires n as nat / p == 1, p > 0;
        lemma_bit_len(n as nat, l as nat);
    }
    l
}


proof fn lemma_bits_join(e: u64, f: u64)
    requires
        e < 0x800,
        f < 0x10_0000_0000_0000,
    ensures
        (e << 52u64) | f == e * pow2(52) + f,
{
    vstd::arithmetic::power2::lemma2_to64_rest();
    assert((e << 52u64) | f == e * 0x10_0000_0000_0000 + f) by (bit_vector)
        requires e < 0x800, f < 0x10_0000_0000_0000;
}

/// Converts an unsigned integer to the nearest double (ties to even), by its bits.
pub fn u64_to_f64_bits(n: u64) -> (r: u64)
    ensures
        r == u64_to_f64(n),
{
    if n == 0 {
        return 0;
    }
    let len = bit_length_u64(n);
    proof {
        vstd::arithmetic::power2::lemma2_to64();
        vstd::arithmetic::power2::lemma2_to64_rest();
    }
    if len <= 53 {
        let sh: u64 = 53 - len;
        proof {
            vstd::arithmetic::power2::lemma_pow2_pos(sh as nat);
            vstd::arithmetic::power2::lemma_pow2_adds(len as nat, sh as nat);
            vstd::arithmetic::power2::lemma_pow2_adds((len - 1) as nat, sh as nat);
            assert(n * pow2(sh as nat) < pow2(53)) by (nonlinear_arith)
                requires n < pow2(len as nat), pow2(len as nat) * pow2(sh as nat) == pow2(53), pow2(sh as nat) > 0;
            assert(n * pow2(sh as nat) >= pow2(52)) by (nonlinear_arith)
                requires n >= pow2((len - 1) as nat), pow2((len - 1) as nat) * pow2(sh as nat) == pow2(52), pow2(sh as nat) > 0;
            vstd::arithmetic::power2::lemma_pow2_adds((len - 1) as nat, sh as nat);
            vstd::arithmetic::power2::lemma_pow2_pos(sh as nat);
            vstd::bits::lemma_u64_shl_is_mul(n, sh);
        }
        let sig = n << sh;
        let e: u64 = len - 1 + 1023;
        let f: u64 = sig - 0x10_0000_0000_0000;
        proof {
            lemma_bits_join(e, f);
        }
        (e << 52u64) | f
    } else {
        let k: u64 = len - 53;
        proof {
            vstd::bits::lemma_u64_shr_is_div(n, k);
            vstd::arithmetic::power2::lemma_pow2_pos(k as nat);
            vstd::arithmetic::power2::lemma_pow2_adds(52, k as nat);
            vstd::arithmetic::power2::lemma_pow2_adds(53, k as nat);
            vstd::arithmetic::power2::lemma_pow2_unfold(k as nat);
        }
        let q = n >> k;
        assert(pow2(52) <= q < pow2(53)) by (nonlinear_arith)
            requires
                q == n as nat / pow2(k as nat),
                pow2(52) * pow2(k as nat) <= n < pow2(53) * pow2(k as nat),
                pow2(k as nat) > 0,
                pow2(52) * pow2(k as nat) == pow2((len - 1) as nat),
                pow2(53) * pow2(k as nat) == pow2(len as nat);
        assert(q * pow2(k as nat) <= n) by (nonlinear_arith)
            requires q == n as nat / pow2(k as nat), pow2(k as nat) > 0;
        proof {
            vstd::bits::lemma_u64_shl_is_mul(q, k);
        }
        let r = n - (q << k);
        assert(r == n as nat % pow2(k as nat)) by (nonlinear_arith)
            requires q == n as nat / pow2(k as nat), pow2(k as nat) > 0, (q << k) == q * pow2(k as nat), r == n - (q << k);
        proof {
            vstd::arithmetic::power2::lemma_pow2_pos((k - 1) as nat);
            vstd::arithmetic::power2::lemma_pow2_strictly_increases((k - 1) as nat, 63);
            vstd::bits::lemma_u64_shl_is_mul(1, (k - 1) as u64);
        }
        let half: u64 = 1u64 << ((k - 1) as u64);
        assert((q & 1 == 1) == (q % 2 == 1)) by (bit_vector);
        let q2: u64 = if r > half || (r == half && (q & 1) == 1) { q + 1 } else { q };
        assert(q2 == round_half_even(n as nat, k as nat));
        if q2 == 0x20_0000_0000_0000 {
            let e: u64 = len + 1023;
            proof {
                lemma_bits_join(e, 0);
            }
            (e << 52u64) | 0
        } else {
            let e: u64 = len - 1 + 1023;
            let f: u64 = q2 - 0x10_0000_0000_0000;
            proof {
                lemma_bits_join(e, f);
            }
            (e << 52u64) | f
        }
    }
}

/// Converts a signed integer to the nearest double (ties to even), by its bits.
pub fn i64_to_f64_bits(n: i64) -> (r: u64)
    ensures
        r == i64_to_f64(n),
{
    if n >= 0 {
        u64_to_f64_bits(n as u64)
    } else {
        let m: u64 = ((-(n + 1)) as u64) + 1;
        let b = u64_to_f64_bits(m);
        assert(b < 0x8000_0000_0000_0000) by {
            lemma_u64_to_f64_positive(m);
        }
        0x8000_0000_0000_0000u64 + b
    }
}

proof fn lemma_u64_to_f64_positive(m: u64)
    requires
        1 <= m <= 0x8000_0000_0000_0000,
    ensures
        u64_to_f64(m) < 0x8000_0000_0000_0000,
{
    vstd::arithmetic::power2::lemma2_to64();
    vstd::arithmetic::power2::lemma2_to64_rest();
    let len = bit_len(m as nat);
    lemma_bit_len_le(m as nat, 64);
    lemma_bit_len_bounds(m as nat);
    if len <= 53 {
        let sh = (53 - len) as nat;
        vstd::arithmetic::power2::lemma_pow2_pos(sh);
        vstd::arithmetic::power2::lemma_pow2_adds(len as nat, sh);
        assert(m * pow2(sh) < pow2(53)) by (nonlinear_arith)
            requires m < pow2(len as nat), pow2(len as nat) * pow2(sh) == pow2(53), pow2(sh) > 0;
        assert(m * pow2(sh) >= 0) by (nonlinear_arith) requires pow2(sh) > 0;
        assert(f64_bits_of(len - 1, (m * pow2(sh)) as nat) < 0x8000_0000_0000_0000);
    } else {
        let k = (len - 53) as nat;
        vstd::arithmetic::power2::lemma_pow2_pos(k);
        vstd::arithmetic::power2::lemma_pow2_adds(53, k);
        assert(m as nat / pow2(k) < pow2(53)) by (nonlinear_arith)
            requires m < pow2(len as nat), pow2(53) * pow2(k) == pow2(len as nat), pow2(k) > 0;
        let q = round_half_even(m as nat, k);
        assert(q <= pow2(53));
        assert(f64_bits_of(len as int, pow2(52)) < 0x8000_0000_0000_0000);
        assert(q < pow2(53) ==> f64_bits_of(len - 1, q) < 0x8000_0000_0000_0000);
    }
}

proof fn lemma_bit_len_bounds(n: nat)
    requires
        n > 0,
    ensures
        bit_len(n) >= 1,
        pow2((bit_len(n) - 1) as nat) <= n < pow2(bit_len(n)),
    decreases n,
{
    vstd::arithmetic::power2::lemma_pow2_unfold(bit_len(n));
    if n >= 2 {
        lemma_bit_len_bounds(n / 2);
        vstd::arithmetic::power2::lemma_pow2_unfold((bit_len(n) - 1) as nat);
    } else {
        vstd::arithmetic::power2::lemma2_to64();
        assert(bit_len(0) == 0);
    }
}

proof fn lemma_bit_len_le(n: nat, l: nat)
    requires
        n < pow2(l),
    ensures
        bit_len(n) <= l,
    decreases l,
{
    if n > 0 {
        lemma_bit_len_bounds(n);
        if bit_len(n) > l {
            vstd::arithmetic::power2::lemma_pow2_strictly_increases(l, (bit_len(n) - 1) as nat);
        }
    }
}

/// `n / 2^k` rounded to the nearest integer, ties to even.
fn round_shift(n: u64, k: u64) -> (q: u64)
    requires
        1 <= k <= 62,
    ensures
        q == round_half_even(n as nat, k as nat),
        q <= n as nat / pow2(k as nat) + 1,
{
    proof {
        vstd::bits::lemma_u64_shr_is_div(n, k);
        vstd::arithmetic::power2::lemma_pow2_pos(k as nat);
        vstd::arithmetic::power2::lemma_pow2_unfold(k as nat);
        vstd::arithmetic::power2::lemma_pow2_pos((k - 1) as nat);
        vstd::arithmetic::power2::lemma_pow2_strictly_increases((k - 1) as nat, 63);
        vstd::arithmetic::power2::lemma2_to64();
        vstd::arithmetic::power2::lemma2_to64_rest();
        vstd::bits::lemma_u64_shl_is_mul(1, (k - 1) as u64);
    }
    let q = n >> k;
    assert(q * pow2(k as nat) <= n) by (nonlinear_arith)
        requires q == n as nat / pow2(k as nat), pow2(k as nat) > 0;
    assert(q < pow2(63)) by (nonlinear_arith)
        requires q == n as nat / pow2(k as nat), pow2(k as nat) >= 2, n < pow2(64), pow2(64) == 2 * pow2(63);
    proof {
        vstd::bits::lemma_u64_shl_is_mul(q, k);
    }
    let r = n - (q << k);
    assert(r == n as nat % pow2(k as nat)) by (nonlinear_arith)
        requires q == n as nat / pow2(k as nat), pow2(k as nat) > 0, (q << k) == q * pow2(k as nat), r == n - (q << k);
    let half: u64 = 1u64 << ((k - 1) as u64);
    assert((q & 1 == 1) == (q % 2 == 1)) by (bit_vector);
    if r > half || (r == half && (q & 1) == 1) {
        q + 1
    } else {
        q
    }
}

/// The single nearest to the double `b` (ties to even), by its bits: the sign kept; too
/// large a magnitude gives an infinity, too small a zero; a double in the single's
/// subnormal range rounds to a subnormal single; NaNs give a quiet NaN keeping the top of
/// the payload.
pub open spec fn narrow_f64(b: u64) -> u32 {
    let sign: nat = if b >= 0x8000_0000_0000_0000 { 0x8000_0000 } else { 0 };
    let e = ((b / 0x10_0000_0000_0000) % 0x800) as int;
    let m = (b % 0x10_0000_0000_0000) as nat;
    if e == 0x7FF {
        if m == 0 {
            (sign + 0x7F80_0000) as u32
        } else {
            (sign + 0x7FC0_0000 + m / pow2(29) % 0x40_0000) as u32
        }
    } else if e == 0 {
        sign as u32
    } else if e - 1023 >= -126 {
        let q = round_half_even(pow2(52) + m, 29);
        let (sig, ex) = if q == pow2(24) { (pow2(23), e - 1023 + 1) } else { (q, e - 1023) };
        if ex > 127 {
            (sign + 0x7F80_0000) as u32
        } else {
            (sign + (ex + 127) * pow2(23) + (sig - pow2(23))) as u32
        }
    } else {
        (sign + round_half_even(pow2(52) + m, (-(e - 1023) - 97) as nat)) as u32
    }
}

/// Rounds a double to the nearest single (ties to even), by their bits.
pub fn narrow_f64_bits(b: u64) -> (r: u32)
    ensures
        r == narrow_f64(b),
{
    proof {
        vstd::arithmetic::power2::lemma2_to64();
        vstd::arithmetic::power2::lemma2_to64_rest();
    }
    let sign: u32 = if b >= 0x8000_0000_0000_0000 { 0x8000_0000 } else { 0 };
    let e: u64 = (b >> 52u64) & 0x7FF;
    let m: u64 = b & 0xF_FFFF_FFFF_FFFF;
    assert(e == (b / 0x10_0000_0000_0000) % 0x800) by (bit_vector)
        requires e == (b >> 52u64) & 0x7FF;
    assert(m == b % 0x10_0000_0000_0000) by (bit_vector)
        requires m == b & 0xF_FFFF_FFFF_FFFF;
    if e == 0x7FF {
        if m == 0 {
            assert(sign + 0x7F80_0000 == narrow_f64(b));
            sign + 0x7F80_0000
        } else {
            proof {
                vstd::bits::lemma_u64_shr_is_div(m, 29);
            }
            let top: u64 = (m >> 29u64) & 0x3F_FFFF;
            assert(top == (m >> 29u64) % 0x40_0000 && top < 0x40_0000) by (bit_vector)
                requires top == (m >> 29u64) & 0x3F_FFFF;
            assert(top == m as nat / pow2(29) % 0x40_0000);
            assert(sign + 0x7FC0_0000 + (top as u32) == narrow_f64(b));
            sign + 0x7FC0_0000 + (top as u32)
        }
    } else if e == 0 {
        assert(sign == narrow_f64(b));
        sign
    } else if e >= 897 {
        let q = round_shift(0x10_0000_0000_0000 + m, 29);
        assert(q <= 0x100_0000) by (nonlinear_arith)
            requires q <= (0x10_0000_0000_0000 + m) as nat / pow2(29) + 1, pow2(29) == 0x2000_0000, m < 0x10_0000_0000_0000;
        let (sig, ex): (u64, u64) = if q == 0x100_0000 { (0x80_0000, e + 1) } else { (q, e) };
        assert(q >= 0x80_0000) by (nonlinear_arith)
            requires q >= (0x10_0000_0000_0000 + m) as nat / pow2(29), pow2(29) == 0x2000_0000;
        assert(q == round_half_even((pow2(52) + m) as nat, 29));
        if ex > 1150 {
            assert(sign + 0x7F80_0000 == narrow_f64(b));
            sign + 0x7F80_0000
        } else {
            let field: u64 = (ex - 896) * 0x80_0000 + (sig - 0x80_0000);
            assert(field < 0x8000_0000);
            assert(sign + (field as u32) == narrow_f64(b));
            sign + (field as u32)
        }
    } else {
        let k: u64 = 926 - e;
        assert(k >= 30);
        if k <= 62 {
            let q = round_shift(0x10_0000_0000_0000 + m, k);
            proof {
                if k > 30 {
                    vstd::arithmetic::power2::lemma_pow2_strictly_increases(30, k as nat);
                }
            }
            assert(q <= 0x80_0000) by (nonlinear_arith)
                requires q <= (0x10_0000_0000_0000 + m) as nat / pow2(k as nat) + 1, pow2(k as nat) >= 0x4000_0000,
                    m < 0x10_0000_0000_0000;
            assert(sign + (q as u32) == narrow_f64(b));
            sign + (q as u32)
        } else {
            proof {
                lemma_round_tiny((0x10_0000_0000_0000 + m) as nat, k as nat);
            }
            assert(pow2(52) == 0x10_0000_0000_0000);
            assert(((-(e as int - 1023)) - 97) as nat == k as nat);
            assert(round_half_even((pow2(52) + m) as nat, ((-(e as int - 1023)) - 97) as nat) == 0);
            assert(sign == narrow_f64(b));
            sign
        }
    }
}

/// A number below `2^53` rounds to 0 at a position of 63 or more.
proof fn lemma_round_tiny(n: nat, k: nat)
    requires
        n < pow2(53),
        k >= 63,
    ensures
        round_half_even(n, k) == 0,
{
    vstd::arithmetic::power2::lemma_pow2_strictly_increases(54, k);
    vstd::arithmetic::power2::lemma_pow2_strictly_increases(53, 54);
    vstd::arithmetic::power2::lemma_pow2_unfold(54);
    assert(n / pow2(k) == 0) by (nonlinear_arith) requires n < pow2(k);
    assert(n % pow2(k) == n) by (nonlinear_arith) requires n < pow2(k);
}

/// Whether the double `b` has a single with exactly its value (NaNs never do).
pub open spec fn f64_fits_f32(b: u64) -> bool {
    !(((b / 0x10_0000_0000_0000) % 0x800) == 0x7FF && b % 0x10_0000_0000_0000 != 0)
        && widen_f32(narrow_f64(b)) == b
}

/// Whether a double converts to a single without loss; if so, that single's bits.
pub fn f64_as_exact_f32(b: u64) -> (r: Option<u32>)
    ensures
        r is Some <==> f64_fits_f32(b),
        r matches Some(x) ==> x == narrow_f64(b),
{
    let e: u64 = (b >> 52u64) & 0x7FF;
    let m: u64 = b & 0xF_FFFF_FFFF_FFFF;
    assert(e == (b / 0x10_0000_0000_0000) % 0x800) by (bit_vector)
        requires e == (b >> 52u64) & 0x7FF;
    assert(m == b % 0x10_0000_0000_0000) by (bit_vector)
        requires m == b & 0xF_FFFF_FFFF_FFFF;
    if e == 0x7FF && m != 0 {
        return None;
    }
    let x = narrow_f64_bits(b);
    if widen_f32_bits(x) == b {
        Some(x)
    } else {
        None
    }
}


/// A single that is an infinity or a NaN widens to a double that is one too.
pub proof fn lemma_widen_not_finite(x: u32)
    by (bit_vector)
    ensures
        (x >> 23u32) & 0xFF == 0xFF ==> ((((((x >> 31u32) as u64) << 63u64) | (0x7FFu64 << 52u64)
            | (((x & 0x7FFFFF) as u64) << 29u64)) >> 52u64) & 0x7FF) == 0x7FF,
{
}

} // verus!
