//! Single-precision values carried as their IEEE 754 bit patterns.
//!
//! The library never computes with floating-point numbers: a 32-bit float is
//! held as the `u32` that holds its bits, and the few operations that the
//! detection pipeline needs (ordering, rounding to an integer) are written
//! over that pattern and proved against their arithmetic meaning.
use vstd::prelude::*;

verus! {

/// Bits of the most negative finite single-precision value.
pub const LOWEST_FINITE_BITS: u32 = 0xff7f_ffff;

/// Bits of positive zero.
pub const ZERO_BITS: u32 = 0;

pub open spec fn sign_bit(b: u32) -> bool {
    (b >> 31u32) == 1u32
}

pub open spec fn exponent_field(b: u32) -> int {
    ((b >> 23u32) & 0xffu32) as int
}

pub open spec fn fraction_field(b: u32) -> int {
    (b & 0x7f_ffffu32) as int
}

/// Everything but the sign bit.
pub open spec fn magnitude_bits(b: u32) -> int {
    (b & 0x7fff_ffffu32) as int
}

pub open spec fn is_nan(b: u32) -> bool {
    exponent_field(b) == 255 && fraction_field(b) != 0
}

pub open spec fn is_infinite(b: u32) -> bool {
    exponent_field(b) == 255 && fraction_field(b) == 0
}

/// An integer that orders non-NaN values as the floats they encode do:
/// both zeros map to 0, and `x < y` as floats exactly when
/// `order_key(x) < order_key(y)`.
pub open spec fn order_key(b: u32) -> int {
    if sign_bit(b) {
        -magnitude_bits(b)
    } else {
        magnitude_bits(b)
    }
}

/// The float comparison `x >= y` (false when either is NaN).
pub open spec fn float_ge(x: u32, y: u32) -> bool {
    !is_nan(x) && !is_nan(y) && order_key(x) >= order_key(y)
}

/// The float comparison `x > y` (false when either is NaN).
pub open spec fn float_gt(x: u32, y: u32) -> bool {
    !is_nan(x) && !is_nan(y) && order_key(x) > order_key(y)
}

pub open spec fn two_pow(n: nat) -> int
    decreases n,
{
    if n == 0 {
        1
    } else {
        2 * two_pow((n - 1) as nat)
    }
}

/// The significand of a finite value as an integer: the value's magnitude is
/// `significand(b) * 2^binary_scale(b)`.
pub open spec fn significand(b: u32) -> int {
    if exponent_field(b) == 0 {
        fraction_field(b)
    } else {
        fraction_field(b) + 0x80_0000
    }
}

pub open spec fn binary_scale(b: u32) -> int {
    if exponent_field(b) == 0 {
        1 - 150
    } else {
        exponent_field(b) - 150
    }
}

/// `floor(|x| + 1/2)` for a finite `x`: its magnitude rounded half away from zero.
pub open spec fn rounded_magnitude(b: u32) -> int {
    let s = binary_scale(b);
    if s >= 0 {
        significand(b) * two_pow(s as nat)
    } else {
        (significand(b) + two_pow((-s - 1) as nat)) / two_pow((-s) as nat)
    }
}

/// `x.round() as i32`: rounding half away from zero, then the saturating cast
/// (NaN gives 0, out-of-range values the nearest bound).
pub open spec fn round_to_i32(b: u32) -> int {
    if is_nan(b) {
        0
    } else if is_infinite(b) {
        if sign_bit(b) {
            i32::MIN as int
        } else {
            i32::MAX as int
        }
    } else if sign_bit(b) {
        if rounded_magnitude(b) > -(i32::MIN as int) {
            i32::MIN as int
        } else {
            -rounded_magnitude(b)
        }
    } else {
        if rounded_magnitude(b) > i32::MAX as int {
            i32::MAX as int
        } else {
            rounded_magnitude(b)
        }
    }
}

pub fn is_nan_bits(b: u32) -> (r: bool)
    ensures
        r == is_nan(b),
{
    ((b >> 23u32) & 0xffu32) == 255 && (b & 0x7f_ffffu32) != 0
}

pub fn order_key_of(b: u32) -> (r: i64)
    ensures
        r == order_key(b),
{
    let m: u32 = b & 0x7fff_ffffu32;
    if (b >> 31u32) == 1u32 {
        -(m as i64)
    } else {
        m as i64
    }
}

/// `x >= y` on two floats given by their bits.
pub fn bits_ge(x: u32, y: u32) -> (r: bool)
    ensures
        r == float_ge(x, y),
{
    !is_nan_bits(x) && !is_nan_bits(y) && order_key_of(x) >= order_key_of(y)
}

/// `x > y` on two floats given by their bits.
pub fn bits_gt(x: u32, y: u32) -> (r: bool)
    ensures
        r == float_gt(x, y),
{
    !is_nan_bits(x) && !is_nan_bits(y) && order_key_of(x) > order_key_of(y)
}

pub proof fn lemma_two_pow_monotone(a: nat, b: nat)
    requires
        a <= b,
    ensures
        0 < two_pow(a) <= two_pow(b),
    decreases b,
{
    if a < b {
        lemma_two_pow_monotone(a, (b - 1) as nat);
    } else if b > 0 {
        lemma_two_pow_monotone(0, (b - 1) as nat);
    }
}

proof fn lemma_two_pow_24()
    ensures
        two_pow(24) == 0x100_0000,
        two_pow(8) == 256,
{
    reveal_with_fuel(two_pow, 25);
}

/// `2^n` for `n <= 24`.
fn pow2_small(n: u32) -> (r: u64)
    requires
        n <= 24,
    ensures
        r == two_pow(n as nat),
        r <= 0x100_0000,
{
    let mut p: u64 = 1;
    let mut i: u32 = 0;
    while i < n
        invariant
            i <= n <= 24,
            p == two_pow(i as nat),
        decreases n - i,
    {
        proof {
            lemma_two_pow_monotone((i + 1) as nat, 24);
            lemma_two_pow_24();
        }
        p = p * 2;
        i = i + 1;
    }
    proof {
        lemma_two_pow_monotone(n as nat, 24);
        lemma_two_pow_24();
    }
    p
}

/// `x.round() as i32` for the float whose bits are `b`.
pub fn round_bits_to_i32(b: u32) -> (r: i32)
    ensures
        r == round_to_i32(b),
{
    let exp: u32 = (b >> 23u32) & 0xffu32;
    let frac: u32 = b & 0x7f_ffffu32;
    let negative: bool = (b >> 31u32) == 1u32;
    if exp == 255 {
        if frac != 0 {
            return 0;
        } else if negative {
            return i32::MIN;
        } else {
            return i32::MAX;
        }
    }
    assert(frac < 0x80_0000) by (bit_vector)
        requires
            frac == b & 0x7f_ffffu32,
    ;
    let sig: u64 = if exp == 0 {
        frac as u64
    } else {
        frac as u64 + 0x80_0000
    };
    let e_eff: u32 = if exp == 0 {
        1
    } else {
        exp
    };
    // magnitude rounded half away from zero, capped just above 2^31
    let mag: u64 = if e_eff >= 150 {
        let s: u32 = e_eff - 150;
        if s >= 8 {
            proof {
                lemma_two_pow_monotone(8, s as nat);
                lemma_two_pow_24();
                let t = two_pow(s as nat);
                assert(sig * t >= 0x80_0000 * 256) by (nonlinear_arith)
                    requires
                        sig >= 0x80_0000,
                        t >= 256,
                ;
            }
            0x1_0000_0000u64
        } else {
            let p: u64 = pow2_small(s);
            proof {
                lemma_two_pow_monotone(s as nat, 7);
                reveal_with_fuel(two_pow, 8);
                assert(sig * p <= 0x100_0000 * 128) by (nonlinear_arith)
                    requires
                        sig <= 0x100_0000,
                        p <= 128,
                ;
            }
            sig * p
        }
    } else {
        let k: u32 = 150 - e_eff;
        if k >= 25 {
            proof {
                lemma_two_pow_monotone(24, (k - 1) as nat);
                lemma_two_pow_24();
                let h = two_pow((k - 1) as nat);
                assert(two_pow(k as nat) == 2 * h);
                assert((sig + h) / (2 * h) == 0) by (nonlinear_arith)
                    requires
                        sig < 0x100_0000,
                        h >= 0x100_0000,
                ;
            }
            0
        } else {
            let p: u64 = pow2_small(k);
            assert(two_pow(k as nat) == 2 * two_pow((k - 1) as nat));
            proof {
                lemma_two_pow_monotone(0, k as nat);
            }
            (sig + p / 2) / p
        }
    };
    if negative {
        if mag > 0x8000_0000u64 {
            i32::MIN
        } else {
            -(mag as i64) as i32
        }
    } else {
        if mag > 0x7fff_ffffu64 {
            i32::MAX
        } else {
            mag as i32
        }
    }
}

pub fn significand_of(b: u32) -> (r: u32)
    ensures
        r == significand(b),
        r < 0x100_0000,
{
    let exp: u32 = (b >> 23u32) & 0xffu32;
    let frac: u32 = b & 0x7f_ffffu32;
    assert(frac < 0x80_0000) by (bit_vector)
        requires
            frac == b & 0x7f_ffffu32,
    ;
    if exp == 0 {
        frac
    } else {
        frac + 0x80_0000
    }
}

pub fn binary_scale_of(b: u32) -> (r: i32)
    ensures
        r == binary_scale(b),
        -149 <= r <= 105,
{
    let exp: u32 = (b >> 23u32) & 0xffu32;
    assert(exp <= 255) by (bit_vector)
        requires
            exp == (b >> 23u32) & 0xffu32,
    ;
    if exp == 0 {
        -149
    } else {
        exp as i32 - 150
    }
}

pub fn is_infinite_bits(b: u32) -> (r: bool)
    ensures
        r == is_infinite(b),
{
    ((b >> 23u32) & 0xffu32) == 255 && (b & 0x7f_ffffu32) == 0
}

} // verus!
