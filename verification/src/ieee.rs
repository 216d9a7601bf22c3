//! Binary floating-point numbers, read from their bits with whole numbers
//! alone.
//!
//! A double has a sign bit, eleven bits of exponent and 52 bits of fraction.
//! Where the exponent is below 2047, it stands for its significand times two
//! to the power of its scale, with the sign before it.

use vstd::prelude::*;
use vstd::arithmetic::div_mod::{
    lemma_basic_div, lemma_fundamental_div_mod, lemma_fundamental_div_mod_converse,
    lemma_small_mod,
};
use vstd::arithmetic::power2::{
    lemma2_to64, lemma2_to64_rest, lemma_pow2_adds, lemma_pow2_pos, lemma_pow2_strictly_increases,
    lemma_pow2_unfold, pow2,
};

verus! {

/// The sign bit of a double: 1 for a negative number.
pub open spec fn sign_of(bits: u64) -> nat {
    bits as nat / 0x8000_0000_0000_0000
}

/// The exponent bits of a double.
pub open spec fn exponent_of(bits: u64) -> nat {
    (bits as nat / 0x10_0000_0000_0000) % 0x800
}

/// The fraction bits of a double.
pub open spec fn fraction_of(bits: u64) -> nat {
    bits as nat % 0x10_0000_0000_0000
}

/// Whether a double is no number.
pub open spec fn is_nan(bits: u64) -> bool {
    exponent_of(bits) == 0x7FF && fraction_of(bits) != 0
}

/// Whether a double is infinite.
pub open spec fn is_infinite(bits: u64) -> bool {
    exponent_of(bits) == 0x7FF && fraction_of(bits) == 0
}

/// The significand of a finite double.
pub open spec fn significand_of(bits: u64) -> nat {
    if exponent_of(bits) == 0 {
        fraction_of(bits)
    } else {
        fraction_of(bits) + 0x10_0000_0000_0000
    }
}

/// The scale of a finite double: the power of two that its significand is
/// multiplied by.
pub open spec fn scale_of(bits: u64) -> int {
    if exponent_of(bits) == 0 {
        -1074
    } else {
        exponent_of(bits) - 1075
    }
}

/// The number of binary digits of `n`.
pub open spec fn bit_length(n: nat) -> nat
    decreases n,
{
    if n == 0 {
        0
    } else {
        1 + bit_length(n / 2)
    }
}

/// The whole number `p`, rounded to the nearest whole number of at most 53
/// binary digits times a power of two; of two that are equally near, to the
/// one with an even number of that power. This is how a product of doubles
/// is rounded.
pub open spec fn round_to_53_bits(p: nat) -> nat {
    if p < 0x20_0000_0000_0000 {
        p
    } else {
        let unit = pow2((bit_length(p) - 53) as nat);
        let q = p / unit;
        let rest = p % unit;
        if rest * 2 > unit || (rest * 2 == unit && q % 2 == 1) {
            (q + 1) * unit
        } else {
            q * unit
        }
    }
}

/// The whole part of a double without its sign, as an unsigned number of 64
/// bits: nothing for what is no number, and the greatest such number for
/// what is greater.
pub open spec fn whole_part(bits: u64) -> nat {
    if is_nan(bits) {
        0
    } else if is_infinite(bits) {
        u64::MAX as nat
    } else if scale_of(bits) >= 0 {
        let whole = significand_of(bits) * pow2(scale_of(bits) as nat);
        if whole > u64::MAX {
            u64::MAX as nat
        } else {
            whole
        }
    } else {
        significand_of(bits) / pow2((-scale_of(bits)) as nat)
    }
}

/// What a double has behind the point, without its sign, counted in units of
/// two to the power of its scale; nothing for what is infinite or no number.
pub open spec fn fraction_part(bits: u64) -> nat {
    if exponent_of(bits) == 0x7FF || scale_of(bits) >= 0 {
        0
    } else {
        significand_of(bits) % pow2((-scale_of(bits)) as nat)
    }
}

/// The nanoseconds of a double that counts seconds, without its sign: what
/// it has behind the point, times 1,000,000,000 as a product of doubles, and
/// of that the whole part as an unsigned number of 32 bits.
pub open spec fn nanos_part(bits: u64) -> nat {
    if exponent_of(bits) == 0x7FF || scale_of(bits) >= 0 {
        0
    } else {
        let raw = round_to_53_bits(fraction_part(bits) * 1_000_000_000) / pow2(
            (-scale_of(bits)) as nat,
        );
        if raw > u32::MAX {
            u32::MAX as nat
        } else {
            raw
        }
    }
}

/// The exponent bits of a single.
pub open spec fn single_exponent_of(bits: u32) -> nat {
    (bits as nat / 0x80_0000) % 0x100
}

/// The fraction bits of a single.
pub open spec fn single_fraction_of(bits: u32) -> nat {
    bits as nat % 0x80_0000
}

/// The significand of a finite single.
pub open spec fn single_significand_of(bits: u32) -> nat {
    if single_exponent_of(bits) == 0 {
        single_fraction_of(bits)
    } else {
        single_fraction_of(bits) + 0x80_0000
    }
}

/// The scale of a finite single: the power of two that its significand is
/// multiplied by.
pub open spec fn single_scale_of(bits: u32) -> int {
    if single_exponent_of(bits) == 0 {
        -149
    } else {
        single_exponent_of(bits) - 150
    }
}

/// The double that stands for the same number as the single with these bits.
/// A single has a sign bit, eight bits of exponent and 23 bits of fraction.
/// What is no number stays none, with its fraction bits at the front of the
/// double's and the first of them set.
pub open spec fn double_of_single(bits: u32) -> u64 {
    let sign = bits as nat / 0x8000_0000;
    let exponent = (bits as nat / 0x80_0000) % 0x100;
    let fraction = bits as nat % 0x80_0000;
    let wide = fraction * 0x2000_0000;
    let high: nat = if exponent == 0xFF {
        0x7FF
    } else if exponent != 0 {
        exponent + 896
    } else if fraction == 0 {
        0
    } else {
        873 + bit_length(fraction)
    };
    let low: nat = if exponent == 0xFF {
        if fraction == 0 || wide >= 0x8_0000_0000_0000 {
            wide
        } else {
            wide + 0x8_0000_0000_0000
        }
    } else if exponent != 0 || fraction == 0 {
        wide
    } else {
        (fraction * pow2((53 - bit_length(fraction)) as nat) - 0x10_0000_0000_0000) as nat
    };
    (sign * 0x8000_0000_0000_0000 + high * 0x10_0000_0000_0000 + low) as u64
}

/// How the length of a number lies to a power of two.
pub proof fn lemma_bit_length(n: nat, k: nat)
    ensures
        n < pow2(k) <==> bit_length(n) <= k,
    decreases k,
{
    lemma_pow2_pos(k);
    if k == 0 {
        lemma2_to64();
        if n > 0 {
            assert(bit_length(n) == 1 + bit_length(n / 2));
        }
    } else {
        lemma_pow2_unfold(k);
        if n > 0 {
            lemma_bit_length(n / 2, (k - 1) as nat);
        }
    }
}

/// The value of two to the power of 83, and of the powers below it that the
/// reading of a double meets.
pub proof fn lemma_pow2_values()
    ensures
        pow2(11) == 0x800,
        pow2(12) == 0x1000,
        pow2(30) == 0x4000_0000,
        pow2(52) == 0x10_0000_0000_0000,
        pow2(53) == 0x20_0000_0000_0000,
        pow2(64) == 0x1_0000_0000_0000_0000,
        pow2(83) == 0x8_0000_0000_0000_0000_0000,
        pow2(84) == 0x10_0000_0000_0000_0000_0000,
{
    lemma2_to64();
    lemma2_to64_rest();
    lemma_pow2_adds(64, 19);
    lemma_pow2_adds(64, 20);
}

/// Two to the power of `k`.
fn power_of_two(k: u64) -> (r: u128)
    requires
        k <= 84,
    ensures
        r == pow2(k as nat),
        r > 0,
{
    let mut r: u128 = 1;
    let mut i: u64 = 0;
    proof {
        lemma2_to64();
    }
    while i < k
        invariant
            i <= k,
            k <= 84,
            r == pow2(i as nat),
        decreases k - i,
    {
        proof {
            lemma_pow2_values();
            lemma_pow2_unfold((i + 1) as nat);
            if i < 83 {
                lemma_pow2_strictly_increases(i as nat, 83);
            }
        }
        r = r * 2;
        i = i + 1;
    }
    proof {
        lemma_pow2_pos(k as nat);
    }
    r
}

/// The number of binary digits of `p`.
fn bit_length_of(p: u128) -> (r: u64)
    requires
        p < 0x8_0000_0000_0000_0000_0000,
    ensures
        r == bit_length(p as nat),
        r <= 83,
{
    let mut n = p;
    let mut r: u64 = 0;
    proof {
        lemma_pow2_values();
        lemma_bit_length(p as nat, 83);
    }
    while n > 0
        invariant
            bit_length(p as nat) == r + bit_length(n as nat),
            bit_length(p as nat) <= 83,
        decreases n,
    {
        n = n / 2;
        r = r + 1;
    }
    r
}

/// Rounds `p` to at most 53 binary digits times a power of two.
fn round_53(p: u128) -> (r: u128)
    requires
        p < 0x8_0000_0000_0000_0000_0000,
    ensures
        r == round_to_53_bits(p as nat),
        r <= 2 * p,
{
    if p < 0x20_0000_0000_0000 {
        return p;
    }
    let length = bit_length_of(p);
    proof {
        lemma_pow2_values();
        lemma_bit_length(p as nat, 53);
    }
    let unit = power_of_two(length - 53);
    let q = p / unit;
    let rest = p % unit;
    proof {
        lemma_fundamental_div_mod(p as int, unit as int);
        lemma_bit_length(p as nat, (length - 1) as nat);
        lemma_pow2_adds((length - 53) as nat, 52);
        lemma_pow2_strictly_increases((length - 53) as nat, 31);
        lemma2_to64();
        assert(unit * q <= p);
        assert(unit <= p);
        assert((q + 1) * unit == q * unit + unit) by (nonlinear_arith);
        assert(q * unit == unit * q) by (nonlinear_arith);
    }
    if rest * 2 > unit || (rest * 2 == unit && q % 2 == 1) {
        (q + 1) * unit
    } else {
        q * unit
    }
}

/// Whether a double has the sign of a negative number.
pub fn is_negative(bits: u64) -> (r: bool)
    ensures
        r == (sign_of(bits) == 1),
{
    assert(bits >> 63 == bits / 0x8000_0000_0000_0000) by (bit_vector);
    (bits >> 63) == 1
}

/// The whole part and the nanoseconds of a double that counts seconds, both
/// without its sign.
pub fn seconds_of(bits: u64) -> (r: (u64, u32))
    ensures
        r.0 == whole_part(bits),
        r.1 == nanos_part(bits),
{
    let exponent = (bits >> 52) & 0x7FF;
    let fraction = bits & 0xF_FFFF_FFFF_FFFF;
    proof {
        assert(bits >> 63 == bits / 0x8000_0000_0000_0000) by (bit_vector);
        assert((bits >> 52) & 0x7FF == (bits / 0x10_0000_0000_0000) % 0x800) by (bit_vector);
        assert(bits & 0xF_FFFF_FFFF_FFFF == bits % 0x10_0000_0000_0000) by (bit_vector);
        assert(bits / 0x8000_0000_0000_0000 <= 1) by (bit_vector);
        lemma_pow2_values();
    }
    if exponent == 0x7FF && fraction != 0 {
        return (0, 0);
    }
    if exponent == 0x7FF {
        return (u64::MAX, 0);
    }
    let significand: u64 = if exponent == 0 {
        fraction
    } else {
        fraction + 0x10_0000_0000_0000
    };
    if exponent >= 1075 {
        let scale = exponent - 1075;
        if scale >= 12 {
            proof {
                if scale > 12 {
                    lemma_pow2_strictly_increases(12, scale as nat);
                }
                assert(significand * pow2(scale as nat) >= 0x10_0000_0000_0000 * 0x1000)
                    by (nonlinear_arith)
                    requires
                        significand >= 0x10_0000_0000_0000,
                        pow2(scale as nat) >= 0x1000,
                ;
            }
            return (u64::MAX, 0);
        }
        let unit = power_of_two(scale);
        proof {
            if scale < 11 {
                lemma_pow2_strictly_increases(scale as nat, 11);
            }
            assert(significand * unit < 0x20_0000_0000_0000 * 0x800) by (nonlinear_arith)
                requires
                    significand < 0x20_0000_0000_0000,
                    unit <= 0x800,
            ;
        }
        let whole = significand as u128 * unit;
        return (whole as u64, 0);
    }
    let shift: u64 = if exponent == 0 {
        1074
    } else {
        1075 - exponent
    };
    if shift >= 84 {
        proof {
            if shift > 84 {
                lemma_pow2_strictly_increases(84, shift as nat);
            }
            let unit = pow2(shift as nat);
            lemma_basic_div(significand as int, unit as int);
            lemma_small_mod(significand as nat, unit);
            let product = (significand * 1_000_000_000) as nat;
            lemma_round_bound(product);
            lemma_basic_div(round_to_53_bits(product) as int, unit as int);
        }
        return (0, 0);
    }
    let unit = power_of_two(shift);
    let whole = significand as u128 / unit;
    let part = significand as u128 % unit;
    proof {
        lemma_fundamental_div_mod(significand as int, unit as int);
        assert(unit * whole >= 0) by (nonlinear_arith)
            requires
                unit > 0,
                whole >= 0,
        ;
        assert(part * 1_000_000_000 < 0x20_0000_0000_0000 * 0x4000_0000) by (nonlinear_arith)
            requires
                part < 0x20_0000_0000_0000,
        ;
    }
    let product = part * 1_000_000_000;
    let rounded = round_53(product);
    let raw = rounded / unit;
    let nanos: u32 = if raw > u32::MAX as u128 {
        u32::MAX
    } else {
        raw as u32
    };
    (whole as u64, nanos)
}

/// The bits of the double that stands for the same number as the single
/// with these bits.
pub fn widen(bits: u32) -> (r: u64)
    ensures
        r == double_of_single(bits),
{
    let sign = (bits >> 31) as u64;
    let exponent = ((bits >> 23) & 0xFF) as u64;
    let fraction = (bits & 0x7F_FFFF) as u64;
    proof {
        assert(bits >> 31 == bits / 0x8000_0000) by (bit_vector);
        assert((bits >> 23) & 0xFF == (bits / 0x80_0000) % 0x100) by (bit_vector);
        assert(bits & 0x7F_FFFF == bits % 0x80_0000) by (bit_vector);
        assert(bits / 0x8000_0000 <= 1) by (bit_vector);
        lemma_pow2_values();
    }
    let wide = fraction * 0x2000_0000;
    let high: u64 = if exponent == 0xFF {
        0x7FF
    } else if exponent != 0 {
        exponent + 896
    } else if fraction == 0 {
        0
    } else {
        873 + bit_length_of(fraction as u128)
    };
    let low: u64 = if exponent == 0xFF {
        if fraction == 0 || wide >= 0x8_0000_0000_0000 {
            wide
        } else {
            wide + 0x8_0000_0000_0000
        }
    } else if exponent != 0 || fraction == 0 {
        wide
    } else {
        let length = bit_length_of(fraction as u128);
        proof {
            lemma_bit_length(fraction as nat, 23);
            lemma_bit_length(fraction as nat, length as nat);
            lemma_bit_length(fraction as nat, (length - 1) as nat);
            lemma_bit_length(fraction as nat, 0);
            lemma2_to64();
        }
        let unit = power_of_two(53 - length);
        proof {
            lemma_pow2_adds((53 - length) as nat, length as nat);
            lemma_pow2_adds((53 - length) as nat, (length - 1) as nat);
            let a = pow2((length - 1) as nat);
            let b = pow2(length as nat);
            assert(fraction * unit >= a * unit && fraction * unit < b * unit) by (nonlinear_arith)
                requires
                    a <= fraction < b,
                    unit > 0,
            ;
            assert(a * unit == unit * a && b * unit == unit * b) by (nonlinear_arith);
        }
        (fraction as u128 * unit - 0x10_0000_0000_0000) as u64
    };
    proof {
        assert(high <= 0x7FF);
        assert(low < 0x10_0000_0000_0000);
    }
    sign * 0x8000_0000_0000_0000 + high * 0x10_0000_0000_0000 + low
}

/// The parts of a double that is put together from them.
pub proof fn lemma_double_parts(sign: nat, high: nat, low: nat)
    requires
        sign <= 1,
        high <= 0x7FF,
        low < 0x10_0000_0000_0000,
    ensures
        ({
            let bits = (sign * 0x8000_0000_0000_0000 + high * 0x10_0000_0000_0000 + low) as u64;
            &&& sign_of(bits) == sign
            &&& exponent_of(bits) == high
            &&& fraction_of(bits) == low
        }),
{
    let n = sign * 0x8000_0000_0000_0000 + high * 0x10_0000_0000_0000 + low;
    let upper = sign * 0x800 + high;
    assert(n == 0x10_0000_0000_0000 * upper + low);
    lemma_fundamental_div_mod_converse(n as int, 0x10_0000_0000_0000, upper as int, low as int);
    assert(upper == 0x800 * sign + high);
    lemma_fundamental_div_mod_converse(upper as int, 0x800, sign as int, high as int);
    assert(n / 0x8000_0000_0000_0000 == sign) by {
        let rest = high * 0x10_0000_0000_0000 + low;
        assert(n == 0x8000_0000_0000_0000 * sign + rest);
        lemma_fundamental_div_mod_converse(
            n as int,
            0x8000_0000_0000_0000,
            sign as int,
            rest as int,
        );
    }
}

/// Widening keeps the number: the double of a finite single is finite, has
/// its sign, and stands for the same number, which is the significand times
/// two to the power of the scale. Both sides are counted here in units of two
/// to the power of -1074, the smallest that a double can tell apart.
pub proof fn lemma_widening_keeps_the_number(bits: u32)
    requires
        single_exponent_of(bits) != 0xFF,
    ensures
        exponent_of(double_of_single(bits)) != 0x7FF,
        sign_of(double_of_single(bits)) == bits as nat / 0x8000_0000,
        significand_of(double_of_single(bits)) * pow2(
            (scale_of(double_of_single(bits)) + 1074) as nat,
        ) == single_significand_of(bits) * pow2((single_scale_of(bits) + 1074) as nat),
{
    let sign = bits as nat / 0x8000_0000;
    let exponent = single_exponent_of(bits);
    let fraction = single_fraction_of(bits);
    let wide = fraction * 0x2000_0000;
    lemma_pow2_values();
    lemma2_to64();
    if exponent != 0 {
        lemma_double_parts(sign, exponent + 896, wide);
        lemma_pow2_adds(29, (exponent + 895) as nat);
        let unit = pow2((exponent + 895) as nat);
        assert((fraction * 0x2000_0000 + 0x10_0000_0000_0000) * unit == (fraction + 0x80_0000) * (
        0x2000_0000 * unit)) by (nonlinear_arith);

    } else if fraction == 0 {
        lemma_double_parts(sign, 0, 0);
        let x = pow2((scale_of(double_of_single(bits)) + 1074) as nat);
        let y = pow2((single_scale_of(bits) + 1074) as nat);
        assert(0 * x == 0 * y) by (nonlinear_arith);
    } else {
        let length = bit_length(fraction);
        lemma_bit_length(fraction, 23);
        lemma_bit_length(fraction, length);
        lemma_bit_length(fraction, (length - 1) as nat);
        lemma_bit_length(fraction, 0);
        let shift = (53 - length) as nat;
        let unit = pow2(shift);
        lemma_pow2_adds(shift, length);
        lemma_pow2_adds(shift, (length - 1) as nat);
        lemma_pow2_pos(shift);
        let a = pow2((length - 1) as nat);
        let b = pow2(length);
        assert(fraction * unit >= a * unit && fraction * unit < b * unit) by (nonlinear_arith)
            requires
                a <= fraction < b,
                unit > 0,
        ;
        lemma_pow2_pos(shift);
        assert(a * unit == unit * a && b * unit == unit * b) by (nonlinear_arith);
        let low = (fraction * unit - 0x10_0000_0000_0000) as nat;
        lemma_double_parts(sign, 873 + length, low);
        let rest = pow2((length + 872) as nat);
        lemma_pow2_adds(shift, (length + 872) as nat);
        assert((fraction * unit) * rest == fraction * (unit * rest)) by (nonlinear_arith);

    }
}

/// Rounding at most doubles a number.
pub proof fn lemma_round_bound(p: nat)
    ensures
        round_to_53_bits(p) <= 2 * p,
{
    if p >= 0x20_0000_0000_0000 {
        lemma_pow2_values();
        let length = bit_length(p);
        lemma_bit_length(p, 53);
        lemma_bit_length(p, (length - 1) as nat);
        let unit = pow2((length - 53) as nat);
        lemma_pow2_pos((length - 53) as nat);
        lemma_pow2_adds((length - 53) as nat, 52);
        let q = p / unit;
        lemma_fundamental_div_mod(p as int, unit as int);
        assert(unit <= p) by (nonlinear_arith)
            requires
                unit * 0x10_0000_0000_0000 <= p,
                unit > 0,
        ;
        assert((q + 1) * unit == q * unit + unit) by (nonlinear_arith);
        assert(q * unit == unit * q) by (nonlinear_arith);
    }
}

} // verus!
