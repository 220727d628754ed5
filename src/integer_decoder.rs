//! Decimal and hexadecimal numbers read from byte buffers, refused where they might not fit
//! in a `usize`.
use vstd::prelude::*;

use crate::errors::IntegerDecodeError;

verus! {

pub open spec fn is_dec_digit(b: u8) -> bool {
    48 <= b <= 57
}

pub open spec fn is_hex_digit(b: u8) -> bool {
    is_dec_digit(b) || (97 <= b <= 102) || (65 <= b <= 70)
}

pub open spec fn dec_digit_value(b: u8) -> nat {
    (b - 48) as nat
}

pub open spec fn hex_digit_value(b: u8) -> nat {
    if is_dec_digit(b) {
        (b - 48) as nat
    } else if 97 <= b <= 102 {
        (b - 97 + 10) as nat
    } else {
        (b - 65 + 10) as nat
    }
}

/// Reads `s` as digits of `base` from the most significant one: the value, or the first
/// byte that is no digit.
pub open spec fn digits_value(s: Seq<u8>, base: nat) -> Result<nat, u8>
    decreases s.len(),
{
    if s.len() == 0 {
        Ok(0)
    } else {
        match digits_value(s.drop_last(), base) {
            Err(b) => Err(b),
            Ok(v) => {
                let d = s.last();
                if base == 16 && is_hex_digit(d) {
                    Ok(v * 16 + hex_digit_value(d))
                } else if base == 10 && is_dec_digit(d) {
                    Ok(v * 10 + dec_digit_value(d))
                } else {
                    Err(d)
                }
            },
        }
    }
}

/// The length from which a hexadecimal buffer is refused: every shorter one fits in a `usize`.
pub open spec fn hex_len_limit() -> nat {
    if usize::BITS == 64 { 15 } else { 8 }
}

/// The length from which a decimal buffer is refused: every shorter one fits in a `usize`.
pub open spec fn dec_len_limit() -> nat {
    if usize::BITS == 64 { 19 } else { 9 }
}

/// What decoding `s` in `base` gives, with `limit` the length from which it is too long.
pub open spec fn decode_spec(s: Seq<u8>, base: nat, limit: nat) -> Result<nat, IntegerDecodeError> {
    if s.len() >= limit {
        Err(IntegerDecodeError::TooLong(s.len() as usize))
    } else {
        match digits_value(s, base) {
            Ok(v) => Ok(v),
            Err(b) => Err(IntegerDecodeError::InvalidChar(b)),
        }
    }
}

pub open spec fn hex_decode_spec(s: Seq<u8>) -> Result<nat, IntegerDecodeError> {
    decode_spec(s, 16, hex_len_limit())
}

pub open spec fn dec_decode_spec(s: Seq<u8>) -> Result<nat, IntegerDecodeError> {
    decode_spec(s, 10, dec_len_limit())
}

pub open spec fn pow_nat(base: nat, n: nat) -> nat
    decreases n,
{
    if n == 0 { 1 } else { base * pow_nat(base, (n - 1) as nat) }
}

proof fn lemma_digits_bound(s: Seq<u8>, base: nat)
    requires
        base == 10 || base == 16,
    ensures
        digits_value(s, base) is Ok ==> digits_value(s, base)->Ok_0 < pow_nat(base, s.len()),
    decreases s.len(),
{
    if s.len() > 0 {
        lemma_digits_bound(s.drop_last(), base);
        let n = (s.len() - 1) as nat;
        assert(pow_nat(base, s.len()) == base * pow_nat(base, n));
        if digits_value(s, base) is Ok {
            let v = digits_value(s.drop_last(), base)->Ok_0;
            let d = if base == 16 { hex_digit_value(s.last()) } else { dec_digit_value(s.last()) };
            assert(d < base);
            assert(v + 1 <= pow_nat(base, n));
            assert(v * base + d < base * pow_nat(base, n)) by (nonlinear_arith)
                requires v + 1 <= pow_nat(base, n), d < base;
        }
    }
}

proof fn lemma_pow_mono(base: nat, a: nat, b: nat)
    requires
        base >= 1,
        a <= b,
    ensures
        pow_nat(base, a) <= pow_nat(base, b),
    decreases b,
{
    if a < b {
        lemma_pow_mono(base, a, (b - 1) as nat);
        let p = pow_nat(base, (b - 1) as nat);
        assert(p <= base * p) by (nonlinear_arith) requires base >= 1;
    }
}

/// Every buffer shorter than the limit of its base holds a value below `usize::MAX + 1`.
proof fn lemma_limit_fits(base: nat, limit: nat)
    requires
        (base == 16 && limit == hex_len_limit()) || (base == 10 && limit == dec_len_limit()),
    ensures
        pow_nat(base, (limit - 1) as nat) * base <= usize::MAX + 1,
{
    reveal_with_fuel(pow_nat, 2);
    if base == 16 {
            assert(pow_nat(16, 1) == 16);
            assert(pow_nat(16, 2) == 256);
            assert(pow_nat(16, 3) == 4096);
            assert(pow_nat(16, 4) == 65536);
            assert(pow_nat(16, 5) == 1048576);
            assert(pow_nat(16, 6) == 16777216);
            assert(pow_nat(16, 7) == 268435456);
            assert(pow_nat(16, 8) == 4294967296);
            assert(pow_nat(16, 9) == 68719476736);
            assert(pow_nat(16, 10) == 1099511627776);
            assert(pow_nat(16, 11) == 17592186044416);
            assert(pow_nat(16, 12) == 281474976710656);
            assert(pow_nat(16, 13) == 4503599627370496);
            assert(pow_nat(16, 14) == 72057594037927936);
    } else {
            assert(pow_nat(10, 1) == 10);
            assert(pow_nat(10, 2) == 100);
            assert(pow_nat(10, 3) == 1000);
            assert(pow_nat(10, 4) == 10000);
            assert(pow_nat(10, 5) == 100000);
            assert(pow_nat(10, 6) == 1000000);
            assert(pow_nat(10, 7) == 10000000);
            assert(pow_nat(10, 8) == 100000000);
            assert(pow_nat(10, 9) == 1000000000);
            assert(pow_nat(10, 10) == 10000000000);
            assert(pow_nat(10, 11) == 100000000000);
            assert(pow_nat(10, 12) == 1000000000000);
            assert(pow_nat(10, 13) == 10000000000000);
            assert(pow_nat(10, 14) == 100000000000000);
            assert(pow_nat(10, 15) == 1000000000000000);
            assert(pow_nat(10, 16) == 10000000000000000);
            assert(pow_nat(10, 17) == 100000000000000000);
            assert(pow_nat(10, 18) == 1000000000000000000);
    }
}

/// Reads `buf` in `base`, refusing it from `limit` bytes on.
fn decode_buf(buf: &[u8], base: usize, limit: usize) -> (r: Result<usize, IntegerDecodeError>)
    requires
        (base == 16 && limit == hex_len_limit()) || (base == 10 && limit == dec_len_limit()),
    ensures
        match r {
            Ok(v) => decode_spec(buf@, base as nat, limit as nat) == Ok::<nat, IntegerDecodeError>(v as nat),
            Err(e) => decode_spec(buf@, base as nat, limit as nat) == Err::<nat, IntegerDecodeError>(e),
        },
{
    if buf.len() >= limit {
        return Err(IntegerDecodeError::TooLong(buf.len()));
    }
    proof {
        lemma_limit_fits(base as nat, limit as nat);
        lemma_pow_mono(base as nat, buf@.len(), (limit - 1) as nat);
    }
    let mut size: usize = 0;
    let mut i: usize = 0;
    while i < buf.len()
        invariant
            i <= buf@.len() < limit,
            (base == 16 && limit == hex_len_limit()) || (base == 10 && limit == dec_len_limit()),
            pow_nat(base as nat, buf@.len()) <= pow_nat(base as nat, (limit - 1) as nat),
            base == 16 ==> pow_nat(16, (limit - 1) as nat) * 16 <= usize::MAX + 1,
            base == 10 ==> pow_nat(10, (limit - 1) as nat) * 10 <= usize::MAX + 1,
            digits_value(buf@.subrange(0, i as int), base as nat) == Ok::<nat, u8>(size as nat),
        decreases buf.len() - i,
    {
        let c = buf[i];
        proof {
            let p = buf@.subrange(0, i as int + 1);
            assert(p.drop_last() =~= buf@.subrange(0, i as int));
            lemma_digits_bound(buf@.subrange(0, i as int), base as nat);
            lemma_pow_mono(base as nat, i as nat, buf@.len());
        }
        let d: usize = if 48 <= c && c <= 57 {
            (c - 48) as usize
        } else if base == 16 && 97 <= c && c <= 102 {
            (c - 97 + 10) as usize
        } else if base == 16 && 65 <= c && c <= 70 {
            (c - 65 + 10) as usize
        } else {
            proof {
                let p = buf@.subrange(0, i as int + 1);
                assert(p.drop_last() =~= buf@.subrange(0, i as int));
                lemma_digits_first_error(buf@, base as nat, i as nat + 1, c);
            }
            return Err(IntegerDecodeError::InvalidChar(c));
        };
        proof {
            let pi = pow_nat(base as nat, i as nat);
            let pl = pow_nat(base as nat, (limit - 1) as nat);
            assert(size < pi);
            assert(pi <= pl);
            assert(size * base + d < usize::MAX + 1) by (nonlinear_arith)
                requires size < pi, pi <= pl, d < base, pl * base <= usize::MAX + 1;
        }
        size = size * base + d;
        i = i + 1;
    }
    assert(buf@.subrange(0, i as int) =~= buf@);
    Ok(size)
}

/// Once a prefix holds a byte that is no digit, so does every longer buffer.
proof fn lemma_digits_first_error(s: Seq<u8>, base: nat, j: nat, b: u8)
    requires
        j <= s.len(),
        digits_value(s.subrange(0, j as int), base) == Err::<nat, u8>(b),
    ensures
        digits_value(s, base) == Err::<nat, u8>(b),
    decreases s.len(),
{
    if s.len() == j {
        assert(s.subrange(0, j as int) =~= s);
    } else {
        assert(s.drop_last().subrange(0, j as int) =~= s.subrange(0, j as int));
        lemma_digits_first_error(s.drop_last(), base, j, b);
    }
}

/// Reads `buf` as a hexadecimal number, either case of letter allowed.
pub fn hex_buf_to_int(buf: &[u8]) -> (r: Result<usize, IntegerDecodeError>)
    ensures
        match r {
            Ok(v) => hex_decode_spec(buf@) == Ok::<nat, IntegerDecodeError>(v as nat),
            Err(e) => hex_decode_spec(buf@) == Err::<nat, IntegerDecodeError>(e),
        },
{
    let limit: usize = if usize::BITS == 64 { 15 } else { 8 };
    decode_buf(buf, 16, limit)
}

/// Reads `buf` as a decimal number.
pub fn dec_buf_to_int(buf: &[u8]) -> (r: Result<usize, IntegerDecodeError>)
    ensures
        match r {
            Ok(v) => dec_decode_spec(buf@) == Ok::<nat, IntegerDecodeError>(v as nat),
            Err(e) => dec_decode_spec(buf@) == Err::<nat, IntegerDecodeError>(e),
        },
{
    let limit: usize = if usize::BITS == 64 { 19 } else { 9 };
    decode_buf(buf, 10, limit)
}

} // verus!
