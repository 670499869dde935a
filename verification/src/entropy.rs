//! Fixed-point base-2 logarithms for the MDL complexity scores.
//!
//! Floating point stays outside the verified core, so the
//! minimum-description-length scores are computed in fixed-point integer
//! arithmetic: a logarithm value carries 32 fractional bits.  The scores
//! are exact integers, pinned by the spec functions below; callers compare
//! them directly.

use vstd::prelude::*;
use vstd::arithmetic::div_mod::lemma_div_multiples_vanish;
use vstd::arithmetic::div_mod::lemma_div_is_ordered;
use vstd::arithmetic::div_mod::lemma_fundamental_div_mod;

verus! {

/// One in the fixed-point scale: `2^32`.
pub const LOG_ONE: u64 = 0x1_0000_0000;

/// `2^k` as a spec-level integer.
pub open spec fn pow2_int(k: int) -> int
    decreases k,
{
    if k <= 0 {
        1
    } else {
        2 * pow2_int(k - 1)
    }
}

/// The powers of two used by the fixed-point scale.
pub proof fn lemma_pow2_values()
    ensures
        pow2_int(32) == 0x1_0000_0000,
        pow2_int(64) == 0x1_0000_0000_0000_0000,
{
    reveal_with_fuel(pow2_int, 66);
}

/// Powers of two grow with the exponent.
pub proof fn lemma_pow2_mono(a: int, b: int)
    requires
        a <= b,
    ensures
        pow2_int(a) <= pow2_int(b),
    decreases b - a,
{
    if a < b {
        lemma_pow2_mono(a, b - 1);
        lemma_pow2_pos(b - 1);
    }
}

/// `2^k` is positive.
pub proof fn lemma_pow2_pos(k: int)
    ensures
        pow2_int(k) >= 1,
    decreases k,
{
    if k > 0 {
        lemma_pow2_pos(k - 1);
    }
}

/// The floor of the base-2 logarithm of `x`.
pub open spec fn spec_ilog2(x: int) -> int
    decreases x,
{
    if x < 2 {
        0
    } else {
        1 + spec_ilog2(x / 2)
    }
}

/// The fractional refinement: `bits` further bits of the logarithm of a
/// mantissa `z` in `[2^32, 2^33)`, produced by repeated squaring.
pub open spec fn spec_log2_frac(z: int, bits: int) -> int
    decreases bits,
{
    if bits <= 0 {
        0
    } else {
        let z2 = (z * z) / 0x1_0000_0000;
        if z2 >= 0x2_0000_0000 {
            pow2_int(bits - 1) + spec_log2_frac(z2 / 2, bits - 1)
        } else {
            spec_log2_frac(z2, bits - 1)
        }
    }
}

/// The fixed-point base-2 logarithm of `x >= 1`: the integer part in the
/// upper bits and 32 fractional bits below.
pub open spec fn spec_log2_fp(x: int) -> int {
    spec_ilog2(x) * (LOG_ONE as int) + spec_log2_frac(
        (x * (LOG_ONE as int)) / pow2_int(spec_ilog2(x)),
        32,
    )
}

/// The fractional part stays below `2^bits`.
pub proof fn lemma_log2_frac_bound(z: int, bits: int)
    requires
        bits >= 0,
    ensures
        0 <= spec_log2_frac(z, bits) < pow2_int(bits),
    decreases bits,
{
    if bits > 0 {
        let z2 = (z * z) / 0x1_0000_0000;
        if z2 >= 0x2_0000_0000 {
            lemma_log2_frac_bound(z2 / 2, bits - 1);
        } else {
            lemma_log2_frac_bound(z2, bits - 1);
        }
    }
}

/// If `x < 2^b`, its integer logarithm is below `b`.
proof fn lemma_ilog2_below(x: int, b: int)
    requires
        1 <= x,
        b >= 1,
        x < pow2_int(b),
    ensures
        0 <= spec_ilog2(x) < b,
    decreases x,
{
    if x >= 2 {
        assert(pow2_int(b) == 2 * pow2_int(b - 1));
        assert(x / 2 < pow2_int(b - 1)) by (nonlinear_arith)
            requires
                x < pow2_int(b),
                pow2_int(b) == 2 * pow2_int(b - 1),
        ;
        lemma_ilog2_below(x / 2, b - 1);
    }
}

/// The integer part of the logarithm of a 64-bit value is below 64.
pub proof fn lemma_ilog2_bound(x: int)
    requires
        1 <= x <= u64::MAX,
    ensures
        0 <= spec_ilog2(x) < 64,
{
    lemma_pow2_values();
    lemma_ilog2_below(x, 64);
}

/// A fixed-point logarithm of a 64-bit value is non-negative and fits in
/// 38 bits: `0 <= spec_log2_fp(x) < 64 * 2^32`.
pub proof fn lemma_log2_fp_bound(x: int)
    requires
        1 <= x <= u64::MAX,
    ensures
        0 <= spec_log2_fp(x) < 64 * (LOG_ONE as int),
{
    lemma_ilog2_bound(x);
    lemma_log2_frac_bound((x * (LOG_ONE as int)) / pow2_int(spec_ilog2(x)), 32);
    lemma_pow2_values();
    assert(spec_ilog2(x) * (LOG_ONE as int) <= 63 * (LOG_ONE as int) && spec_ilog2(x) * (
    LOG_ONE as int) >= 0) by (nonlinear_arith)
        requires
            0 <= spec_ilog2(x) < 64,
    ;
}

/// A quotient below a bound: if `a < d * c` then `a / d < c`.
proof fn lemma_div_below(a: int, d: int, c: int)
    requires
        0 <= a,
        0 < d,
        a < d * c,
    ensures
        a / d < c,
{
    lemma_fundamental_div_mod(a, d);
    assert(a / d < c) by (nonlinear_arith)
        requires
            a == d * (a / d) + a % d,
            0 <= a % d < d,
            a < d * c,
            0 < d,
    ;
}

/// A quotient above a bound: if `d * c <= a` then `c <= a / d`.
proof fn lemma_div_above(a: int, d: int, c: int)
    requires
        0 <= c,
        0 < d,
        d * c <= a,
    ensures
        c <= a / d,
{
    lemma_div_multiples_vanish(c, d);
    lemma_div_is_ordered(d * c, a, d);
}

/// Computes the fixed-point base-2 logarithm: the value
/// `spec_log2_fp(x)`, which stands for `2^32 * log2(x)` to 32 fractional
/// bits.
pub fn log2_fp(x: u64) -> (r: u64)
    requires
        x >= 1,
    ensures
        r == spec_log2_fp(x as int),
{
    let mut k: u32 = 0;
    let mut p: u64 = 1;
    let mut m: u64 = x;
    while m >= 2
        invariant
            1 <= m,
            x >= 1,
            p == pow2_int(k as int),
            k <= 63,
            spec_ilog2(x as int) == k + spec_ilog2(m as int),
            pow2_int(k as int) * (m as int) <= x,
            x < pow2_int(k as int) * ((m as int) + 1),
        decreases m,
    {
        proof {
            lemma_pow2_pos(k as int);
            assert(pow2_int(k + 1) == 2 * pow2_int(k as int));
            assert(2 * pow2_int(k as int) <= pow2_int(k as int) * (m as int)) by (nonlinear_arith)
                requires
                    m >= 2,
                    pow2_int(k as int) >= 1,
            ;
            assert(pow2_int(k + 1) * ((m as int) / 2) <= pow2_int(k as int) * (m as int) && pow2_int(
                k as int,
            ) * ((m as int) + 1) <= pow2_int(k + 1) * ((m as int) / 2 + 1)) by (nonlinear_arith)
                requires
                    m >= 2,
                    pow2_int(k + 1) == 2 * pow2_int(k as int),
                    pow2_int(k as int) >= 1,
            ;
            if k >= 63 {
                lemma_pow2_values();
                assert(false);
            }
        }
        m = m / 2;
        k = k + 1;
        p = p * 2;
    }
    proof {
        assert(spec_ilog2(m as int) == 0);
        assert(spec_ilog2(x as int) == k);
        lemma_pow2_pos(k as int);
        lemma_pow2_values();
    }
    let wide: u128 = (x as u128) * (LOG_ONE as u128);
    let z0: u128 = wide / (p as u128);
    proof {
        lemma_div_above(wide as int, p as int, LOG_ONE as int);
        assert((p as int) * (LOG_ONE as int) <= wide) by (nonlinear_arith)
            requires
                pow2_int(k as int) * (m as int) <= x,
                m == 1,
                p == pow2_int(k as int),
                wide == (x as int) * (LOG_ONE as int),
                p >= 1,
        ;
        assert(wide < (p as int) * (2 * LOG_ONE as int)) by (nonlinear_arith)
            requires
                x < pow2_int(k as int) * ((m as int) + 1),
                m == 1,
                p == pow2_int(k as int),
                wide == (x as int) * (LOG_ONE as int),
                p >= 1,
        ;
        lemma_div_below(wide as int, p as int, 2 * LOG_ONE as int);
    }
    let mut z: u128 = z0;
    let mut frac: u64 = 0;
    let mut i: u32 = 0;
    while i < 32
        invariant
            i <= 32,
            0x1_0000_0000 <= z < 0x2_0000_0000,
            frac < pow2_int(i as int),
            spec_log2_frac(z0 as int, 32) == (frac as int) * pow2_int(32 - i) + spec_log2_frac(
                z as int,
                32 - i,
            ),
        decreases 32 - i,
    {
        proof {
            assert((z as int) * (z as int) < 0x2_0000_0000 * 0x2_0000_0000 && (z as int) * (
            z as int) >= 0x1_0000_0000 * 0x1_0000_0000) by (nonlinear_arith)
                requires
                    0x1_0000_0000 <= z < 0x2_0000_0000,
            ;
            lemma_div_above((z * z) as int, 0x1_0000_0000, 0x1_0000_0000);
            lemma_div_below((z * z) as int, 0x1_0000_0000, 0x4_0000_0000);
            assert(pow2_int(32 - i) == 2 * pow2_int(32 - i - 1));
            lemma_pow2_pos(32 - i - 1);
            assert(pow2_int(i + 1) == 2 * pow2_int(i as int));
            lemma_pow2_mono(i + 1, 32);
            lemma_pow2_values();
        }
        let zz: u128 = (z * z) / 0x1_0000_0000;
        let ghost oldfrac = frac as int;
        let ghost bits = 32 - i as int;
        if zz >= 0x2_0000_0000 {
            z = zz / 2;
            frac = frac * 2 + 1;
            proof {
                assert((2 * oldfrac + 1) * pow2_int(bits - 1) == oldfrac * pow2_int(bits)
                    + pow2_int(bits - 1)) by (nonlinear_arith)
                    requires
                        pow2_int(bits) == 2 * pow2_int(bits - 1),
                ;
            }
        } else {
            z = zz;
            frac = frac * 2;
            proof {
                assert((2 * oldfrac) * pow2_int(bits - 1) == oldfrac * pow2_int(bits))
                    by (nonlinear_arith)
                    requires
                        pow2_int(bits) == 2 * pow2_int(bits - 1),
                ;
            }
        }
        i = i + 1;
    }
    proof {
        assert(pow2_int(0) == 1);
        assert(spec_log2_frac(z as int, 0) == 0);
        lemma_pow2_values();
        assert(frac < LOG_ONE);
        assert((k as int) * (LOG_ONE as int) <= 63 * (LOG_ONE as int)) by (nonlinear_arith)
            requires
                k <= 63,
        ;
    }
    (k as u64) * LOG_ONE + frac
}

} // verus!
