//! Conversion of audio samples to 16-bit PCM.
//!
//! A sample is an IEEE-754 single precision number, handled here by its bit
//! pattern so that the conversion is integer arithmetic throughout. The
//! result is the sample clamped to `[-1, 1]`, multiplied by 32767 in single
//! precision and truncated toward zero; a NaN gives 0.

use vstd::arithmetic::div_mod::{
    lemma_basic_div, lemma_div_denominator, lemma_div_is_ordered,
    lemma_div_is_ordered_by_denominator, lemma_div_multiples_vanish, lemma_fundamental_div_mod,
    lemma_fundamental_div_mod_converse, lemma_mod_bound,
};
use vstd::arithmetic::power2::{
    lemma2_to64, lemma2_to64_rest, lemma_pow2_adds, lemma_pow2_pos, lemma_pow2_unfold, pow2,
};
use vstd::prelude::*;

verus! {

/// The largest PCM value, by which a sample is scaled.
pub const PCM_MAX: i16 = 32767;

/// Whether the sign bit of the pattern is set.
pub open spec fn sign_of(bits: u32) -> bool {
    bits >= 0x8000_0000
}

/// The biased exponent of the pattern, 0 to 255.
pub open spec fn exponent_of(bits: u32) -> nat {
    ((bits / 0x80_0000) % 0x100) as nat
}

/// The 23 fraction bits of the pattern.
pub open spec fn fraction_of(bits: u32) -> nat {
    (bits % 0x80_0000) as nat
}

/// Whether the pattern is a NaN.
pub open spec fn is_nan(bits: u32) -> bool {
    exponent_of(bits) == 255 && fraction_of(bits) != 0
}

/// The significand of a finite pattern: its magnitude is
/// `significand(bits) / 2^binary_point(bits)`.
pub open spec fn significand(bits: u32) -> nat {
    if exponent_of(bits) == 0 {
        fraction_of(bits)
    } else {
        0x80_0000 + fraction_of(bits)
    }
}

/// The position of the binary point of a pattern whose magnitude is below 2.
pub open spec fn binary_point(bits: u32) -> nat {
    if exponent_of(bits) == 0 {
        149
    } else {
        (150 - exponent_of(bits)) as nat
    }
}

/// How many bits `n` has beyond the 24 that a single precision significand
/// holds.
pub open spec fn excess_bits(n: nat) -> nat
    decreases n,
{
    if n < 0x100_0000 {
        0
    } else {
        1 + excess_bits(n / 2)
    }
}

/// `n / 2^k` rounded to the nearest integer, a tie going to the even one.
pub open spec fn round_half_even(n: nat, k: nat) -> nat {
    let unit = pow2(k);
    let quotient = n / unit;
    let rest = n % unit;
    if 2 * rest > unit || (2 * rest == unit && quotient % 2 == 1) {
        quotient + 1
    } else {
        quotient
    }
}

/// `n` rounded to 24 significant bits, a tie going to the even significand:
/// what single precision keeps of a product whose exact value is `n` units.
pub open spec fn round_to_single(n: nat) -> nat {
    let k = excess_bits(n);
    round_half_even(n, k) * pow2(k)
}

/// The magnitude of the PCM value of a pattern that is no NaN.
pub open spec fn pcm_magnitude(bits: u32) -> nat {
    if exponent_of(bits) >= 127 {
        32767
    } else {
        round_to_single(significand(bits) * 32767) / pow2(binary_point(bits))
    }
}

/// The PCM value of the sample with the given bit pattern.
pub open spec fn pcm_of_sample(bits: u32) -> int {
    if is_nan(bits) {
        0
    } else if sign_of(bits) {
        -(pcm_magnitude(bits) as int)
    } else {
        pcm_magnitude(bits) as int
    }
}

/// The PCM values of a run of samples, one for one.
pub open spec fn pcm_of_samples(samples: Seq<u32>) -> Seq<i16> {
    Seq::new(samples.len(), |i: int| pcm_of_sample(samples[i]) as i16)
}

/// 2 to the power of `e`.
fn power_of_two(e: u32) -> (p: u64)
    requires
        e < 40,
    ensures
        p == pow2(e as nat),
        1 <= p <= 0x80_0000_0000,
{
    let mut p: u64 = 1;
    let mut i: u32 = 0;
    proof {
        lemma2_to64();
        lemma2_to64_rest();
    }
    while i < e
        invariant
            i <= e,
            e < 40,
            p == pow2(i as nat),
            1 <= p,
            p * pow2((39 - i) as nat) == 0x80_0000_0000,
        decreases e - i,
    {
        proof {
            lemma_pow2_unfold((i + 1) as nat);
            lemma_pow2_unfold((39 - i) as nat);
            assert(p * (2 * pow2((38 - i) as nat)) == (2 * p) * pow2((38 - i) as nat))
                by (nonlinear_arith);
            assert(2 * p <= (2 * p) * pow2((38 - i) as nat)) by (nonlinear_arith)
                requires
                    pow2((38 - i) as nat) >= 1,
                    p >= 1,
            ;
        }
        p = p * 2;
        i = i + 1;
    }
    proof {
        assert(p <= p * pow2((39 - i) as nat)) by (nonlinear_arith)
            requires
                pow2((39 - i) as nat) >= 1,
                p >= 1,
        ;
    }
    p
}

/// `product` rounded to 24 significant bits, a tie going to the even
/// significand.
fn round_product(product: u64) -> (rounded: u64)
    requires
        product <= 0xFF_FFFF * 32767,
    ensures
        rounded == round_to_single(product as nat),
        rounded < 0x80_0000_0000,
{
    let mut quotient: u64 = product;
    let mut unit: u64 = 1;
    let ghost mut k: nat = 0;
    proof {
        lemma2_to64();
    }
    while quotient >= 0x100_0000
        invariant
            unit == pow2(k),
            1 <= unit,
            quotient == product / unit,
            unit == 1 || quotient >= 0x80_0000,
            excess_bits(product as nat) == k + excess_bits(quotient as nat),
            product <= 0xFF_FFFF * 32767,
        decreases quotient,
    {
        proof {
            lemma_pow2_unfold(k + 1);
            lemma_div_denominator(product as int, unit as int, 2);
            lemma_fundamental_div_mod(product as int, unit as int);
            assert(unit * quotient >= unit * 0x100_0000) by (nonlinear_arith)
                requires
                    quotient >= 0x100_0000,
                    unit >= 1,
            ;
            k = k + 1;
        }
        quotient = quotient / 2;
        unit = unit * 2;
    }
    proof {
        lemma_fundamental_div_mod(product as int, unit as int);
        assert(unit * quotient <= product);
        assert(unit <= 0xFFFF) by (nonlinear_arith)
            requires
                unit * quotient <= product,
                product <= 0xFF_FFFF * 32767,
                unit == 1 || quotient >= 0x80_0000,
                unit >= 1,
        ;
    }
    let rest: u64 = product - quotient * unit;
    let up: bool = 2 * rest > unit || (2 * rest == unit && quotient % 2 == 1);
    let kept: u64 = if up {
        quotient + 1
    } else {
        quotient
    };
    proof {
        assert(rest == product as int % unit as int);
        assert(kept == round_half_even(product as nat, k));
        assert(kept * unit < 0x80_0000_0000) by (nonlinear_arith)
            requires
                kept == quotient || (kept == quotient + 1 && 2 * rest >= unit),
                rest == product - quotient * unit,
                product <= 0xFF_FFFF * 32767,
                unit <= 0xFFFF,
                unit >= 1,
        ;
    }
    kept * unit
}

/// Converts one sample, given by its bit pattern, to 16-bit PCM.
///
/// The sample is clamped to `[-1, 1]`, scaled by `PCM_MAX` in single
/// precision and truncated toward zero. A NaN becomes 0.
pub fn sample_to_pcm(bits: u32) -> (pcm: i16)
    ensures
        pcm == pcm_of_sample(bits),
        -32767 <= pcm <= 32767,
{
    let negative: bool = bits >= 0x8000_0000;
    let exponent: u32 = (bits / 0x80_0000) % 0x100;
    let fraction: u32 = bits % 0x80_0000;
    if exponent == 255 && fraction != 0 {
        return 0;
    }
    let magnitude: i16 = if exponent >= 127 {
        PCM_MAX
    } else {
        let significand: u64 = if exponent == 0 {
            fraction as u64
        } else {
            0x80_0000 + fraction as u64
        };
        let rounded: u64 = round_product(significand * 32767);
        let point: u32 = if exponent == 0 {
            149
        } else {
            150 - exponent
        };
        if point >= 40 {
            proof {
                lemma2_to64_rest();
                lemma_pow2_grows(39, point as nat);
                lemma_basic_div(rounded as int, pow2(point as nat) as int);
            }
            0
        } else {
            let unit: u64 = power_of_two(point);
            proof {
                lemma2_to64();
                lemma_pow2_grows(24, point as nat);
                lemma_div_is_ordered(rounded as int, 0x80_0000_0000 - 1, unit as int);
                lemma_div_is_ordered_by_denominator(0x80_0000_0000 - 1, 0x100_0000, unit as int);
            }
            (rounded / unit) as i16
        }
    };
    if negative {
        -magnitude
    } else {
        magnitude
    }
}

/// `pow2` does not decrease.
proof fn lemma_pow2_grows(a: nat, b: nat)
    requires
        a <= b,
    ensures
        pow2(a) <= pow2(b),
    decreases b - a,
{
    if a < b {
        lemma_pow2_grows(a, (b - 1) as nat);
        lemma_pow2_unfold(b);
    }
}

/// A number has fewer than 24 bits beyond its excess bits, and no fewer
/// than 23 where it has excess bits.
proof fn lemma_excess_bits(n: nat)
    ensures
        n < 0x100_0000 * pow2(excess_bits(n)),
        excess_bits(n) > 0 ==> n >= 0x80_0000 * pow2(excess_bits(n)),
    decreases n,
{
    lemma2_to64();
    if n >= 0x100_0000 {
        let k = excess_bits(n / 2);
        lemma_excess_bits(n / 2);
        lemma_pow2_unfold(k + 1);
        lemma_pow2_pos(k);
        if k == 0 {
            assert(pow2(1) == 2);
        }
    }
}

/// A number rounded to a multiple of `v` next to it and then cut down to
/// a multiple of `v * w` is less than `v * w` away from the number.
proof fn lemma_rounded_then_cut(n: int, v: int, w: int, r: int)
    requires
        n >= 0,
        v >= 1,
        w >= 1,
        r == (n / v) * v || (r == (n / v + 1) * v && n % v != 0),
    ensures
        (r / (v * w)) * (v * w) - v * w < n < (r / (v * w)) * (v * w) + v * w,
{
    let u = v * w;
    let q = n / v;
    let low = n / u;
    assert(u >= 1) by (nonlinear_arith)
        requires
            u == v * w,
            v >= 1,
            w >= 1,
    ;
    lemma_fundamental_div_mod(n, v);
    lemma_mod_bound(n, v);
    lemma_fundamental_div_mod(n, u);
    lemma_mod_bound(n, u);
    let a = low * u;
    assert(a <= n < a + u && a == (low * w) * v && a + u == ((low + 1) * w) * v)
        by (nonlinear_arith)
        requires
            n == u * low + n % u,
            0 <= n % u < u,
            a == low * u,
            u == v * w,
    ;
    // The multiples of `v` around `n` lie between the multiples of `u`.
    lemma_div_multiples_vanish(low * w, v);
    assert(v * (low * w) == a) by (nonlinear_arith)
        requires
            a == (low * w) * v,
    ;
    lemma_div_is_ordered(a, n, v);
    assert(low * w <= q);
    assert((low + 1) * w >= q + 1) by (nonlinear_arith)
        requires
            ((low + 1) * w) * v > n,
            n == v * q + n % v,
            0 <= n % v,
            v >= 1,
    ;
    assert(a <= q * v && (q + 1) * v <= a + u) by (nonlinear_arith)
        requires
            low * w <= q,
            (low + 1) * w >= q + 1,
            a == (low * w) * v,
            a + u == ((low + 1) * w) * v,
            v >= 1,
    ;
    assert(q * v <= (q + 1) * v) by (nonlinear_arith)
        requires
            v >= 1,
    ;
    if r < a + u {
        lemma_fundamental_div_mod_converse(r, u, low, r - a);
    } else {
        assert(r == a + u);
        assert(a + u == (low + 1) * u + 0) by (nonlinear_arith)
            requires
                a == low * u,
        ;
        lemma_fundamental_div_mod_converse(r, u, low + 1, 0);
        if r == q * v {
            assert(q * v <= n) by (nonlinear_arith)
                requires
                    n == v * q + n % v,
                    0 <= n % v,
            ;
        } else {
            // `n` is no multiple of `v`, so it is not `a`.
            if n == a {
                lemma_fundamental_div_mod_converse(n, v, low * w, 0);
            }
        }
    }
}

/// Quantisation. The PCM value of a sample of magnitude below 1 is less
/// than one unit away from the sample scaled by 32767: with the sample
/// `significand / 2^binary_point`, the magnitude `m` of the PCM value has
/// `(m - 1) * 2^binary_point < significand * 32767 < (m + 1) *
/// 2^binary_point`. A sample of magnitude 1 gives 32767 exactly.
pub proof fn law_quantisation(bits: u32)
    requires
        !is_nan(bits),
        exponent_of(bits) < 127 || (exponent_of(bits) == 127 && fraction_of(bits) == 0),
    ensures
        exponent_of(bits) == 127 ==> pcm_magnitude(bits) == 32767,
        exponent_of(bits) < 127 ==> ({
            let exact = significand(bits) * 32767;
            let unit = pow2(binary_point(bits));
            &&& (pcm_magnitude(bits) - 1) * unit < exact
            &&& exact < (pcm_magnitude(bits) + 1) * unit
        }),
{
    if exponent_of(bits) < 127 {
        let n = significand(bits) * 32767;
        let k = excess_bits(n);
        let point = binary_point(bits);
        lemma2_to64();
        lemma2_to64_rest();
        lemma_excess_bits(n);
        assert(n <= 0xFF_FFFF * 32767);
        assert(k <= 15) by {
            if k >= 16 {
                lemma_pow2_grows(16, k);
                assert(0x80_0000 * pow2(k) >= 0x80_0000 * pow2(16)) by (nonlinear_arith)
                    requires
                        pow2(k) >= pow2(16),
                ;
            }
        }
        assert(point >= 24);
        lemma_pow2_adds(k, (point - k) as nat);
        lemma_pow2_pos(k);
        lemma_pow2_pos((point - k) as nat);
        let v = pow2(k) as int;
        let w = pow2((point - k) as nat) as int;
        let rounded = round_to_single(n) as int;
        let q = n as int / v;
        assert(rounded == q * v || (rounded == (q + 1) * v && n as int % v != 0));
        lemma_rounded_then_cut(n as int, v, w, rounded);
        let m = pcm_magnitude(bits) as int;
        assert(m == rounded / (v * w));
        assert((m - 1) * (v * w) == m * (v * w) - v * w && (m + 1) * (v * w) == m * (v * w) + v
            * w) by (nonlinear_arith);
    }
}

} // verus!
