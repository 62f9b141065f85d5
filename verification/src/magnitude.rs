//! Reading a 64-bit floating point magnitude out of its bit pattern.
//!
//! A temperature carries its magnitude as the IEEE 754 bit pattern of a
//! 64-bit floating point number.  Equality of temperatures compares the
//! magnitudes rounded to the nearest whole degree, and display rounds
//! them to hundredths; both roundings are computed here with integer
//! arithmetic directly on the bit pattern, so that they can be verified.

use vstd::prelude::*;
use vstd::arithmetic::power2::{
    pow2, lemma_pow2_adds, lemma_pow2_pos, lemma_pow2_strictly_increases, lemma_pow2_unfold,
    lemma2_to64, lemma2_to64_rest,
};
use vstd::arithmetic::div_mod::{
    lemma_div_by_multiple, lemma_div_denominator, lemma_div_multiples_vanish_fancy,
    lemma_fundamental_div_mod_converse, lemma_multiply_divide_lt,
};
use vstd::bits::{
    lemma_u64_shl_is_mul, lemma_u64_shr_is_div, lemma_u64_pow2_no_overflow,
    lemma_u64_mul_pow2_le_max_iff_max_shr,
};

verus! {

/// The sign bit of the pattern: true for a negative magnitude.
pub open spec fn sign_of(bits: u64) -> bool {
    bits >> 63 == 1
}

/// The 11-bit biased exponent field.
pub open spec fn biased_exp_of(bits: u64) -> u64 {
    (bits >> 52) & 0x7ff
}

/// The 52-bit fraction field.
pub open spec fn frac_of(bits: u64) -> u64 {
    bits & 0xf_ffff_ffff_ffff
}

/// The pattern encodes a NaN.
pub open spec fn is_nan_bits(bits: u64) -> bool {
    biased_exp_of(bits) == 0x7ff && frac_of(bits) != 0
}

/// The pattern encodes a finite number (zero, subnormal or normal).
pub open spec fn is_finite_bits(bits: u64) -> bool {
    biased_exp_of(bits) != 0x7ff
}

/// For a finite pattern, the encoded magnitude scaled by 2^1074, which
/// makes it a whole number: a subnormal's magnitude is frac * 2^-1074,
/// and a normal's is (2^52 + frac) * 2^(exp - 1075).
pub open spec fn scaled_magnitude(bits: u64) -> int {
    if biased_exp_of(bits) == 0 {
        frac_of(bits) as int
    } else {
        (0x10_0000_0000_0000 + frac_of(bits)) * pow2((biased_exp_of(bits) - 1) as nat)
    }
}

/// For a finite pattern, the encoded magnitude times `scale`, rounded to
/// the nearest whole number with halves rounded away from zero:
/// floor(|value| * scale + 1/2), written over the scaled magnitude.
pub open spec fn rounded_scaled(bits: u64, scale: int) -> int {
    (2 * scale * scaled_magnitude(bits) + pow2(1074)) / (pow2(1075) as int)
}

/// The exponent field has 11 bits and the fraction field 52.
proof fn lemma_field_bounds(bits: u64)
    ensures
        biased_exp_of(bits) < 0x800,
        frac_of(bits) < 0x10_0000_0000_0000,
{
    assert((bits >> 52) & 0x7ff < 0x800) by (bit_vector);
    assert(bits & 0xf_ffff_ffff_ffff < 0x10_0000_0000_0000) by (bit_vector);
}

/// Cancelling a common power of two in numerator and denominator.
proof fn lemma_div_cancel_pow2(x: int, c: nat, d: nat)
    requires
        0 <= x,
    ensures
        (x * pow2(c)) / ((pow2(d) * pow2(c)) as int) == x / (pow2(d) as int),
{
    lemma_pow2_pos(c);
    lemma_pow2_pos(d);
    lemma_div_by_multiple(x, pow2(c) as int);
    assert((x * pow2(c)) / (pow2(c) as int) == x);
    lemma_div_denominator(x * pow2(c), pow2(c) as int, pow2(d) as int);
    assert(((x * pow2(c)) / (pow2(c) as int)) / (pow2(d) as int) == (x * pow2(c)) / (
    (pow2(c) * pow2(d)) as int));
    assert(pow2(c) * pow2(d) == pow2(d) * pow2(c)) by (nonlinear_arith);
}

/// For a normal pattern below the whole-number range, the rounding is a
/// division of the scaled mantissa with a half added.
proof fn lemma_rounded_mid(bits: u64, scale: int)
    requires
        1 <= scale,
        1 <= biased_exp_of(bits) <= 1074,
    ensures
        rounded_scaled(bits, scale) == (scale * (0x10_0000_0000_0000 + frac_of(bits)) + pow2(
        (1074 - biased_exp_of(bits)) as nat)) / (pow2((1075 - biased_exp_of(bits)) as nat) as int),
{
    let e = biased_exp_of(bits) as nat;
    let mant = 0x10_0000_0000_0000 + frac_of(bits) as int;
    let h = scale * mant;
    let k = (1075 - e) as nat;
    lemma_pow2_pos((e - 1) as nat);
    lemma_pow2_pos(e);
    lemma_pow2_pos(k);
    lemma_pow2_pos((k - 1) as nat);
    lemma_pow2_unfold(e);
    assert(2 * scale * (mant * pow2((e - 1) as nat)) == (scale * mant) * (2 * pow2(
    (e - 1) as nat))) by (nonlinear_arith);
    assert(2 * scale * scaled_magnitude(bits) == h * pow2(e));
    lemma_pow2_adds((k - 1) as nat, e);
    assert(pow2(1074) == pow2((k - 1) as nat) * pow2(e));
    assert(h * pow2(e) + (pow2((k - 1) as nat) * pow2(e)) as int == (h + pow2((k - 1) as nat))
        * pow2(e)) by (nonlinear_arith);
    lemma_pow2_adds(k, e);
    assert(pow2(1075) == pow2(k) * pow2(e));
    assert(h + pow2((k - 1) as nat) >= 0) by {
        assert(h >= 0) by (nonlinear_arith)
            requires
                scale >= 1,
                mant >= 0,
                h == scale * mant,
        ;
    }
    lemma_div_cancel_pow2(h + pow2((k - 1) as nat), e, k);
}

/// For a pattern at or above the whole-number range, the rounding is
/// exact: the scaled mantissa times the remaining power of two.
proof fn lemma_rounded_high(bits: u64, scale: int)
    requires
        1 <= scale,
        1075 <= biased_exp_of(bits),
        is_finite_bits(bits),
    ensures
        rounded_scaled(bits, scale) == (scale * (0x10_0000_0000_0000 + frac_of(bits))) * pow2(
        (biased_exp_of(bits) - 1075) as nat),
{
    let e = biased_exp_of(bits) as nat;
    let mant = 0x10_0000_0000_0000 + frac_of(bits) as int;
    let h = scale * mant;
    let s = (e - 1075) as nat;
    lemma_pow2_pos((e - 1) as nat);
    lemma_pow2_pos(e);
    lemma_pow2_pos(s);
    lemma_pow2_pos(1074);
    lemma_pow2_pos(1075);
    lemma_pow2_unfold(e);
    assert(2 * scale * (mant * pow2((e - 1) as nat)) == (scale * mant) * (2 * pow2(
    (e - 1) as nat))) by (nonlinear_arith);
    assert(2 * scale * scaled_magnitude(bits) == h * pow2(e));
    lemma_pow2_adds(s, 1075);
    assert(pow2(e) == pow2(s) * pow2(1075));
    assert(h * (pow2(s) * pow2(1075)) as int == pow2(1075) * (h * pow2(s))) by (nonlinear_arith);
    assert(h * pow2(s) >= 0) by (nonlinear_arith)
        requires
            scale >= 1,
            mant >= 0,
            h == scale * mant,
            pow2(s) >= 1,
    ;
    lemma_pow2_strictly_increases(1074, 1075);
    lemma_div_multiples_vanish_fancy(h * pow2(s), pow2(1074) as int, pow2(1075) as int);
    assert((pow2(1075) * (h * pow2(s)) + pow2(1074)) / (pow2(1075) as int) == h * pow2(s));
}

/// A subnormal magnitude is far below one half, so it rounds to zero at
/// any allowed scale.
proof fn lemma_rounded_subnormal(bits: u64, scale: int)
    requires
        1 <= scale <= 1024,
        biased_exp_of(bits) == 0,
    ensures
        rounded_scaled(bits, scale) == 0,
{
    lemma_field_bounds(bits);
    lemma2_to64();
    lemma2_to64_rest();
    assert(2 * scale * frac_of(bits) < pow2(63)) by (nonlinear_arith)
        requires
            1 <= scale <= 1024,
            frac_of(bits) < 0x10_0000_0000_0000,
            pow2(63) == 0x8000000000000000,
    ;
    lemma_pow2_strictly_increases(63, 1074);
    lemma_pow2_unfold(1075);
    lemma_fundamental_div_mod_converse(
        2 * scale * scaled_magnitude(bits) + pow2(1074),
        pow2(1075) as int,
        0,
        2 * scale * scaled_magnitude(bits) + pow2(1074),
    );
}

/// For finite bits, the encoded magnitude (sign ignored) times `scale`,
/// rounded half away from zero; `None` when the bits encode an infinity
/// or a NaN, or when the rounded result does not fit in a `u64`.
pub fn rounded_scaled_magnitude(bits: u64, scale: u64) -> (r: Option<u64>)
    requires
        1 <= scale <= 1024,
    ensures
        match r {
            Some(v) => is_finite_bits(bits) && v == rounded_scaled(bits, scale as int),
            None => !is_finite_bits(bits) || rounded_scaled(bits, scale as int) > u64::MAX,
        },
{
    proof {
        lemma_field_bounds(bits);
    }
    let e: u64 = (bits >> 52) & 0x7ff;
    let m: u64 = bits & 0xf_ffff_ffff_ffff;
    if e == 0x7ff {
        return None;
    }
    if e == 0 {
        proof {
            lemma_rounded_subnormal(bits, scale as int);
        }
        return Some(0);
    }
    let mant: u64 = 0x10_0000_0000_0000 + m;
    assert(mant * scale <= 0x7fff_ffff_ffff_fc00) by (nonlinear_arith)
        requires
            mant < 0x20_0000_0000_0000,
            scale <= 1024,
    ;
    let h: u64 = mant * scale;
    if e <= 1011 {
        // scale * magnitude < 1/2: the quotient's numerator stays under
        // the denominator.
        proof {
            lemma_rounded_mid(bits, scale as int);
            let k = (1075 - e) as nat;
            lemma2_to64();
            lemma2_to64_rest();
            if (k - 1) as nat != 63 {
                lemma_pow2_strictly_increases(63, (k - 1) as nat);
            }
            lemma_pow2_unfold(k);
            lemma_fundamental_div_mod_converse(
                scale * (0x10_0000_0000_0000 + frac_of(bits)) + pow2((k - 1) as nat),
                pow2(k) as int,
                0,
                scale * (0x10_0000_0000_0000 + frac_of(bits)) + pow2((k - 1) as nat),
            );
        }
        return Some(0);
    }
    if e < 1075 {
        let k: u64 = 1075 - e;
        let j: u64 = k - 1;
        proof {
            lemma_u64_pow2_no_overflow(j as nat);
            lemma_u64_shl_is_mul(1u64, j);
            lemma2_to64();
            lemma2_to64_rest();
            lemma_pow2_strictly_increases(j as nat, 63);
        }
        let half: u64 = 1u64 << j;
        let sum: u64 = h + half;
        proof {
            lemma_u64_shr_is_div(sum, k);
            lemma_rounded_mid(bits, scale as int);
            lemma_pow2_pos(k as nat);
        }
        return Some(sum >> k);
    }
    let s: u64 = e - 1075;
    proof {
        lemma_rounded_high(bits, scale as int);
    }
    if s >= 64 {
        proof {
            lemma_pow2_strictly_increases(63, s as nat);
            lemma2_to64();
            lemma2_to64_rest();
            assert(h >= 0x10_0000_0000_0000) by (nonlinear_arith)
                requires
                    h == mant * scale,
                    mant >= 0x10_0000_0000_0000,
                    scale >= 1,
            ;
            assert(h * pow2(s as nat) > u64::MAX) by (nonlinear_arith)
                requires
                    h >= 0x10_0000_0000_0000,
                    pow2(s as nat) > 0x8000000000000000,
            ;
        }
        return None;
    }
    proof {
        lemma_u64_mul_pow2_le_max_iff_max_shr(h, s, u64::MAX);
    }
    if h <= u64::MAX >> s {
        proof {
            lemma_u64_shl_is_mul(h, s);
        }
        Some(h << s)
    } else {
        None
    }
}

/// Two magnitude patterns stand for the same temperature: both round to
/// the same whole number with the same sign (a rounded zero matches a
/// rounded zero of either sign), NaN patterns match nothing, and an
/// infinity matches exactly itself.
pub open spec fn eq_at_degree(b1: u64, b2: u64) -> bool {
    if is_nan_bits(b1) || is_nan_bits(b2) {
        false
    } else if !is_finite_bits(b1) || !is_finite_bits(b2) {
        b1 == b2
    } else {
        let r1 = rounded_scaled(b1, 1);
        let r2 = rounded_scaled(b2, 1);
        (r1 == 0 && r2 == 0) || (r1 == r2 && sign_of(b1) == sign_of(b2))
    }
}

/// Below the exact range the whole-number rounding always fits a `u64`.
proof fn lemma_rounded_small_fits(bits: u64)
    requires
        is_finite_bits(bits),
        rounded_scaled(bits, 1) > u64::MAX,
    ensures
        1075 <= biased_exp_of(bits),
        rounded_scaled(bits, 1) == (0x10_0000_0000_0000 + frac_of(bits)) * pow2(
        (biased_exp_of(bits) - 1075) as nat),
{
    lemma_field_bounds(bits);
    let e = biased_exp_of(bits);
    if e == 0 {
        lemma_rounded_subnormal(bits, 1);
    } else if e <= 1074 {
        lemma_rounded_mid(bits, 1);
        let k = (1075 - e) as nat;
        let mant = 0x10_0000_0000_0000 + frac_of(bits) as int;
        lemma_pow2_pos(k);
        lemma_pow2_pos((k - 1) as nat);
        lemma_pow2_unfold(k);
        lemma2_to64();
        lemma2_to64_rest();
        assert(mant + pow2((k - 1) as nat) < pow2(k) * 0x20_0000_0000_0000) by (nonlinear_arith)
            requires
                mant < 0x20_0000_0000_0000,
                pow2(k) == 2 * pow2((k - 1) as nat),
                pow2((k - 1) as nat) >= 1,
        ;
        lemma_multiply_divide_lt(
            mant + pow2((k - 1) as nat),
            pow2(k) as int,
            0x20_0000_0000_0000,
        );
    } else {
        lemma_rounded_high(bits, 1);
    }
}

/// In the exact range, distinct exponent or fraction fields give
/// distinct rounded magnitudes.
proof fn lemma_big_rounded_injective(b1: u64, b2: u64)
    requires
        is_finite_bits(b1),
        is_finite_bits(b2),
        rounded_scaled(b1, 1) > u64::MAX,
        rounded_scaled(b2, 1) > u64::MAX,
        biased_exp_of(b1) != biased_exp_of(b2) || frac_of(b1) != frac_of(b2),
    ensures
        rounded_scaled(b1, 1) != rounded_scaled(b2, 1),
{
    lemma_rounded_small_fits(b1);
    lemma_rounded_small_fits(b2);
    lemma_field_bounds(b1);
    lemma_field_bounds(b2);
    let e1 = biased_exp_of(b1);
    let e2 = biased_exp_of(b2);
    let mant1 = 0x10_0000_0000_0000 + frac_of(b1) as int;
    let mant2 = 0x10_0000_0000_0000 + frac_of(b2) as int;
    if e1 == e2 {
        let s = (e1 - 1075) as nat;
        lemma_pow2_pos(s);
        assert(mant1 * pow2(s) != mant2 * pow2(s)) by (nonlinear_arith)
            requires
                mant1 != mant2,
                pow2(s) >= 1,
        ;
    } else if e1 < e2 {
        lemma_big_rounded_ordered(b1, b2);
    } else {
        lemma_big_rounded_ordered(b2, b1);
    }
}

/// A strictly larger exponent in the exact range means a strictly
/// larger rounded magnitude.
proof fn lemma_big_rounded_ordered(b1: u64, b2: u64)
    requires
        is_finite_bits(b1),
        is_finite_bits(b2),
        1075 <= biased_exp_of(b1),
        1075 <= biased_exp_of(b2),
        biased_exp_of(b1) < biased_exp_of(b2),
    ensures
        (0x10_0000_0000_0000 + frac_of(b1)) * pow2((biased_exp_of(b1) - 1075) as nat) < (
        0x10_0000_0000_0000 + frac_of(b2)) * pow2((biased_exp_of(b2) - 1075) as nat),
{
    lemma_field_bounds(b1);
    lemma_field_bounds(b2);
    let s1 = (biased_exp_of(b1) - 1075) as nat;
    let s2 = (biased_exp_of(b2) - 1075) as nat;
    let mant1 = 0x10_0000_0000_0000 + frac_of(b1) as int;
    let mant2 = 0x10_0000_0000_0000 + frac_of(b2) as int;
    lemma_pow2_pos(s1);
    lemma_pow2_pos(s2);
    lemma_pow2_adds(s1, 1);
    lemma_pow2_strictly_increases(s1, (s1 + 1) as nat);
    if (s1 + 1) as nat != s2 {
        lemma_pow2_strictly_increases((s1 + 1) as nat, s2);
    }
    lemma2_to64();
    assert(mant1 * pow2(s1) < mant2 * pow2(s2)) by (nonlinear_arith)
        requires
            mant1 < 0x20_0000_0000_0000,
            mant2 >= 0x10_0000_0000_0000,
            pow2((s1 + 1) as nat) == 2 * pow2(s1),
            pow2((s1 + 1) as nat) <= pow2(s2),
            pow2(s1) >= 1,
            pow2(s2) >= 1,
    ;
}

/// Whether two magnitude patterns stand for the same temperature at
/// whole-degree granularity, computed on the patterns alone.
pub fn eq_bits(b1: u64, b2: u64) -> (r: bool)
    ensures
        r == eq_at_degree(b1, b2),
{
    proof {
        lemma_field_bounds(b1);
        lemma_field_bounds(b2);
        assert(b1 >> 63 == 0 || b1 >> 63 == 1) by (bit_vector);
        assert(b2 >> 63 == 0 || b2 >> 63 == 1) by (bit_vector);
    }
    let e1: u64 = (b1 >> 52) & 0x7ff;
    let e2: u64 = (b2 >> 52) & 0x7ff;
    if e1 == 0x7ff && (b1 & 0xf_ffff_ffff_ffff) != 0 {
        return false;
    }
    if e2 == 0x7ff && (b2 & 0xf_ffff_ffff_ffff) != 0 {
        return false;
    }
    if e1 == 0x7ff || e2 == 0x7ff {
        return b1 == b2;
    }
    let r1 = rounded_scaled_magnitude(b1, 1);
    let r2 = rounded_scaled_magnitude(b2, 1);
    match (r1, r2) {
        (Some(v1), Some(v2)) => (v1 == 0 && v2 == 0) || (v1 == v2 && (b1 >> 63) == (b2 >> 63)),
        (None, None) => {
            proof {
                if b1 != b2 {
                    if biased_exp_of(b1) == biased_exp_of(b2) && frac_of(b1) == frac_of(b2) {
                        // Only the sign bit differs, and neither pattern
                        // rounds to zero.
                        assert(b1 >> 63 != b2 >> 63) by (bit_vector)
                            requires
                                b1 != b2,
                                (b1 >> 52) & 0x7ff == (b2 >> 52) & 0x7ff,
                                b1 & 0xf_ffff_ffff_ffff == b2 & 0xf_ffff_ffff_ffff,
                        ;
                        assert(rounded_scaled(b1, 1) != 0);
                    } else {
                        lemma_big_rounded_injective(b1, b2);
                    }
                }
            }
            b1 == b2
        },
        _ => false,
    }
}

} // verus!
