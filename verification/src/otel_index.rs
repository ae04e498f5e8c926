//! OTel bucket indices computed from the bits of an IEEE 754 double, for scales up to 0.
use vstd::prelude::*;
use vstd::arithmetic::power2::{pow2, lemma_pow2_pos};
use vstd::arithmetic::div_mod::lemma_fundamental_div_mod_converse;
use vstd::bits::lemma_u64_shl_is_mul;
use vstd::arithmetic::power2::{lemma_pow2_unfold, lemma2_to64, lemma_pow2_strictly_increases};
use vstd::arithmetic::div_mod::{lemma_div_is_ordered, lemma_fundamental_div_mod, lemma_mod_bound};
use vstd::bits::lemma_u64_pow2_no_overflow;

verus! {

/// Largest scale a histogram uses.
pub const MAX_SCALE: i32 = 20;

/// The biased exponent field (bits 52 to 62) of the double whose bits are `bits`.
pub open spec fn exponent_field(bits: u64) -> int {
    ((bits >> 52u64) & 0x7FFu64) as int
}

/// The OTel index at a scale up to 0 of the double whose bits are `bits`: its unbiased
/// exponent divided by `2^(-scale)`, rounded down.
pub open spec fn exponent_index(bits: u64, scale: int) -> int {
    (exponent_field(bits) - 1023) / (pow2((-scale) as nat) as int)
}

proof fn lemma_shr_bounds(e: i32, k: u32)
    by (bit_vector)
    requires
        -2048 <= e <= 2048,
        1 <= k <= 31,
    ensures
        ((e >> k) as i64) * ((1u64 << (k as u64)) as i64) <= e as i64,
        (e as i64) < ((e >> k) as i64) * ((1u64 << (k as u64)) as i64) + ((1u64 << (k as u64)) as i64),
{
}

proof fn lemma_exponent_field_bounds(bits: u64)
    ensures
        0 <= exponent_field(bits) <= 0x7FF,
{
    assert(((bits >> 52u64) & 0x7FFu64) <= 0x7FFu64) by (bit_vector);
}

/// The OTel index, at a scale from -31 to 0, of the double whose bits are `bits`: its
/// unbiased binary exponent, shifted right by `-scale` bits.
pub fn otel_index_from_bits(bits: u64, scale: i32) -> (index: i32)
    requires
        -31 <= scale <= 0,
    ensures
        index == exponent_index(bits, scale as int),
        index == ((bits as int / 0x10_0000_0000_0000) % 2048 - 1023) / (pow2((-scale) as nat) as int),
{
    proof {
        lemma_exponent_field_bounds(bits);
        lemma_index_arithmetic(bits, scale as int);
    }
    let field = (bits >> 52u64) & 0x7FFu64;
    let exponent = field as i32 - 1023;
    assert(exponent == exponent_field(bits) - 1023);
    if scale == 0 {
        proof {
            lemma2_to64();
            assert(exponent_index(bits, 0) == (exponent_field(bits) - 1023) / 1);
        }
        exponent
    } else {
        let shift = (-scale) as u32;
        proof {
            lemma_shr_bounds(exponent, shift);
            lemma_u64_pow2_no_overflow(shift as nat);
            lemma_u64_shl_is_mul(1, shift as u64);
            lemma_pow2_pos(shift as nat);
            let p = pow2(shift as nat) as int;
            let q = (exponent >> shift) as int;
            lemma2_to64();
            lemma_pow2_strictly_increases(shift as nat, 32);
            assert(((1u64 << (shift as u64)) as i64) == p);
            lemma_fundamental_div_mod_converse(exponent as int, p, q, exponent - q * p);
            assert(shift as nat == (-scale) as nat);
            assert(q == exponent_index(bits, scale as int));
        }
        exponent >> shift
    }
}

/// Going one scale down halves the index, rounding down: the buckets at scale `s - 1` each
/// merge two neighbouring buckets of scale `s`.
pub proof fn lemma_downscale_halves(bits: u64, scale: int)
    requires
        -30 <= scale <= 0,
    ensures
        exponent_index(bits, scale - 1) == exponent_index(bits, scale) / 2,
{
    let e = exponent_field(bits) - 1023;
    let k = (-scale) as nat;
    let p = pow2(k) as int;
    lemma_pow2_pos(k);
    lemma_pow2_unfold(k + 1);
    let q = e / p;
    let r = e % p;
    let q2 = q / 2;
    let r2 = q % 2;
    lemma_fundamental_div_mod(e, p);
    lemma_mod_bound(e, p);
    lemma_fundamental_div_mod(q, 2);
    lemma_mod_bound(q, 2);
    assert(e == q * p + r && 0 <= r < p && q == q2 * 2 + r2 && 0 <= r2 < 2);
    assert(e == q2 * (2 * p) + (r2 * p + r) && 0 <= r2 * p + r < 2 * p) by (nonlinear_arith)
        requires
            e == q * p + r,
            0 <= r < p,
            q == q2 * 2 + r2,
            0 <= r2 < 2,
    ;
    lemma_fundamental_div_mod_converse(e, 2 * p, q2, r2 * p + r);
}

/// For positive doubles, a larger value never gets a lower index: the bits of positive
/// doubles order them as the values do, and the index only depends on the exponent field.
pub proof fn lemma_index_monotonic(smaller: u64, larger: u64, scale: int)
    requires
        smaller <= larger < 0x8000_0000_0000_0000u64,
        -31 <= scale <= 0,
    ensures
        exponent_index(smaller, scale) <= exponent_index(larger, scale),
{
    assert(((smaller >> 52u64) & 0x7FFu64) <= ((larger >> 52u64) & 0x7FFu64)) by (bit_vector)
        requires
            smaller <= larger < 0x8000_0000_0000_0000u64,
    ;
    lemma_pow2_pos((-scale) as nat);
    lemma_div_is_ordered(
        exponent_field(smaller) - 1023,
        exponent_field(larger) - 1023,
        pow2((-scale) as nat) as int,
    );
}

/// The bit layout of a double: bits 52 to 62 of `field * 2^52 + mantissa` are `field`.
proof fn lemma_field_of_layout(field: u64, mantissa: u64)
    by (bit_vector)
    requires
        field < 2048,
        mantissa < 0x10_0000_0000_0000u64,
    ensures
        (((field * 0x10_0000_0000_0000u64 + mantissa) as u64) >> 52u64) & 0x7FFu64 == field,
{
}

/// A positive normal double is `2^e * (1 + mantissa / 2^52)` for an exponent `e` from -1022
/// to 1023, and its bits are `(e + 1023) * 2^52 + mantissa`. Its OTel index at a scale from
/// -31 to 0 is `e` divided by `2^(-scale)`, rounded down; at scale 0 it is `e` itself, so that
/// `2^e <= v < 2^(e + 1)` lands in bucket `e`.
pub proof fn lemma_index_of_normal(e: int, mantissa: u64, scale: int)
    requires
        -1022 <= e <= 1023,
        mantissa < 0x10_0000_0000_0000u64,
        -31 <= scale <= 0,
    ensures
        exponent_index(((e + 1023) * 0x10_0000_0000_0000 + mantissa) as u64, scale) == e / (pow2(
            (-scale) as nat,
        ) as int),
        exponent_index(((e + 1023) * 0x10_0000_0000_0000 + mantissa) as u64, 0) == e,
{
    let field = (e + 1023) as u64;
    lemma_field_of_layout(field, mantissa);
    assert(((e + 1023) * 0x10_0000_0000_0000 + mantissa) as u64 == (field * 0x10_0000_0000_0000u64
        + mantissa) as u64);
    lemma2_to64();
    let b = ((e + 1023) * 0x10_0000_0000_0000 + mantissa) as u64;
    assert(exponent_field(b) == field);
    assert(exponent_index(b, 0) == (exponent_field(b) - 1023) / 1);
}

/// A positive subnormal double (bits below `2^52`, exponent field 0) gets the index of
/// exponent -1023: -1023 at scale 0, divided by `2^(-scale)` and rounded down below.
pub proof fn lemma_index_of_subnormal(bits: u64, scale: int)
    requires
        bits < 0x10_0000_0000_0000u64,
        -31 <= scale <= 0,
    ensures
        exponent_index(bits, scale) == -1023 / (pow2((-scale) as nat) as int),
        exponent_index(bits, 0) == -1023,
{
    lemma_field_of_layout(0, bits);
    assert((0u64 * 0x10_0000_0000_0000u64 + bits) as u64 == bits);
    lemma2_to64();
    assert(exponent_field(bits) == 0);
    assert(exponent_index(bits, 0) == (exponent_field(bits) - 1023) / 1);
}

/// For any bits, the index is the 11-bit number above the low 52 bits, less 1023, divided by
/// `2^(-scale)` and rounded down.
pub proof fn lemma_index_arithmetic(bits: u64, scale: int)
    requires
        -31 <= scale <= 0,
    ensures
        exponent_index(bits, scale) == ((bits as int / 0x10_0000_0000_0000) % 2048 - 1023) / (pow2(
            (-scale) as nat,
        ) as int),
{
    let high = bits / 0x10_0000_0000_0000u64;
    let field = high % 2048;
    let mantissa = bits % 0x10_0000_0000_0000u64;
    assert(bits == high * 0x10_0000_0000_0000u64 + mantissa);
    assert(((bits >> 52u64) & 0x7FFu64) == (bits / 0x10_0000_0000_0000u64) % 2048) by (bit_vector);
}

} // verus!
