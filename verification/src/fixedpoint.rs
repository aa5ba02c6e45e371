//! Q32 fixed-point arithmetic for the adaptive annealing schedule.
//!
//! Temperatures, acceptance probabilities and logarithms are carried as
//! integers scaled by `2^32`. Each function's contract pins its result to
//! a spec-level mirror of the same integer recurrence, so the schedule's
//! behaviour is fully determined: the normalize-and-square binary
//! logarithm, the alternating-series exponential, and a saturating
//! ratio — large arguments saturate instead of overflowing, where the
//! exponential is zero to Q32 precision anyway.

use vstd::prelude::*;

verus! {

/// `1.0` in Q32.
pub const ONE_Q32: u64 = 4294967296;

/// `ln 2` in Q32.
pub const LN2_Q32: u64 = 2977044472;

/// The Euler–Mascheroni constant in Q32.
pub const GAMMA_Q32: u64 = 2479122554;

/// `0.5` in Q32.
pub const HALF_Q32: u64 = 2147483648;

/// The calibration target acceptance ratio `0.8` in Q32.
pub const RHO_Q32: u64 = 3435973837;

/// The calibration tolerance `0.01` in Q32.
pub const EPS_Q32: u64 = 42949673;

/// `-ln 0.8` in Q32: the calibration update's denominator.
pub const LN_RHO_MAG_Q32: u64 = 958394255;

/// Powers of two.
pub open spec fn pow2_spec(n: int) -> int
    decreases n,
{
    if n <= 0 {
        1
    } else {
        2 * pow2_spec(n - 1)
    }
}

/// The power values the logarithms lean on.
proof fn lemma_pow2_vals()
    ensures
        pow2_spec(32) == 4294967296,
        pow2_spec(39) == 549755813888,
{
    reveal_with_fuel(pow2_spec, 40);
}

/// Powers of two are positive.
pub proof fn lemma_pow2_pos(n: int)
    ensures
        pow2_spec(n) >= 1,
    decreases n,
{
    if n > 0 {
        lemma_pow2_pos(n - 1);
    }
}

/// Normalization: halve `q`, counting halvings, until it lies below
/// `2^33`.
pub open spec fn log2_norm(q: int, k: int) -> (int, int)
    decreases q,
{
    if q >= 8589934592 {
        log2_norm(q / 2, k + 1)
    } else {
        (q, k)
    }
}

/// The square-and-extract recurrence for the fraction bits of a binary
/// logarithm: `rounds` more bits from mantissa `q`, most significant
/// first, onto the accumulator `frac`.
pub open spec fn log2_bits(q: int, frac: int, rounds: int) -> int
    decreases rounds,
{
    if rounds <= 0 {
        frac
    } else {
        let sq = (q * q) / 4294967296;
        if sq >= 8589934592 {
            log2_bits(sq / 2, frac * 2 + 1, rounds - 1)
        } else {
            log2_bits(sq, frac * 2, rounds - 1)
        }
    }
}

/// The binary logarithm of `x >= 1` in Q32, by normalize-and-square.
pub open spec fn log2_q32_spec(x: int) -> int {
    let nk = log2_norm(x * 4294967296, 0);
    nk.1 * 4294967296 + log2_bits(nk.0, 0, 32)
}

/// Computes `log2_q32_spec(x)` for `1 <= x <= 2^38`: the integer part is
/// the number of halvings that normalize `x * 2^32`, the 32 fraction bits
/// come from repeated squaring of the mantissa.
pub fn log2_q32(x: u64) -> (r: u64)
    requires
        1 <= x <= 274877906944,
    ensures
        r as int == log2_q32_spec(x as int),
        r < 40 * 4294967296,
{
    let ghost x0: int = (x as int) * 4294967296;
    let mut q: u128 = (x as u128) * 4294967296;
    let mut k: u64 = 0;
    while q >= 8589934592
        invariant
            q >= 4294967296,
            q as int == x0 / pow2_spec(k as int),
            x0 <= 274877906944 * 4294967296,
            log2_norm(q as int, k as int) == log2_norm(x0, 0),
            pow2_spec(k as int) * (q as int) <= x0,
            k <= 39,
        decreases q,
    {
        proof {
            lemma_pow2_pos(k as int);
            vstd::arithmetic::div_mod::lemma_div_denominator(x0, pow2_spec(k as int), 2);
            assert(pow2_spec(k as int + 1) * ((q as int) / 2) <= pow2_spec(k as int) * (
            q as int)) by (nonlinear_arith)
                requires
                    pow2_spec(k as int + 1) == 2 * pow2_spec(k as int),
                    pow2_spec(k as int) >= 1,
            ;
            if k >= 39 {
                lemma_pow2_vals();
                assert(pow2_spec(k as int) >= pow2_spec(39)) by {
                    lemma_pow2_mono(39, k as int);
                }
                assert(549755813888 * (q as int) > x0) by (nonlinear_arith)
                    requires
                        (q as int) >= 8589934592,
                        x0 <= 274877906944 * 4294967296,
                ;
                assert(false);
            }
        }
        q = q / 2;
        k = k + 1;
    }
    proof {
        assert(log2_norm(q as int, k as int) == (q as int, k as int));
    }
    let ghost q0 = q as int;
    let mut frac: u64 = 0;
    let mut rounds: u64 = 32;
    while rounds > 0
        invariant
            4294967296 <= q < 8589934592,
            rounds <= 32,
            (frac as int) < pow2_spec(32 - rounds as int),
            log2_bits(q as int, frac as int, rounds as int) == log2_bits(q0, 0, 32),
        decreases rounds,
    {
        proof {
            assert((q as int) * (q as int) < 8589934592 * 8589934592) by (nonlinear_arith)
                requires
                    0 <= (q as int) < 8589934592,
            ;
            assert((q as int) * (q as int) / 4294967296 >= 4294967296) by (nonlinear_arith)
                requires
                    (q as int) >= 4294967296,
            ;
            assert(pow2_spec(32 - rounds as int + 1) == 2 * pow2_spec(32 - rounds as int));
            lemma_pow2_vals();
            lemma_pow2_mono(32 - rounds as int + 1, 32);
        }
        let sq: u128 = (q * q) / 4294967296;
        if sq >= 8589934592 {
            q = sq / 2;
            frac = frac * 2 + 1;
        } else {
            q = sq;
            frac = frac * 2;
        }
        rounds = rounds - 1;
    }
    proof {
        lemma_pow2_vals();
    }
    k * 4294967296 + frac
}

/// Powers of two do not decrease.
pub proof fn lemma_pow2_mono(a: int, b: int)
    requires
        a <= b,
    ensures
        pow2_spec(a) <= pow2_spec(b),
    decreases b - a,
{
    if a < b {
        lemma_pow2_mono(a, b - 1);
        lemma_pow2_pos(b - 1);
    }
}

/// The Horner recurrence for `exp(-r)` in Q32, denominators `d` through
/// `8`, for `0 <= r < 1`.
pub open spec fn exp_horner(r: int, d: int) -> int
    decreases 9 - d,
{
    if d >= 9 {
        4294967296
    } else {
        4294967296 - (r * exp_horner(r, d + 1)) / (d * 4294967296)
    }
}

/// Halving `k` times.
pub open spec fn shift_down(p: int, k: int) -> int
    decreases k,
{
    if k <= 0 {
        p
    } else {
        shift_down(p / 2, k - 1)
    }
}

/// `exp(-x)` in Q32 for a Q32 argument `x >= 0`: split off whole
/// multiples of `ln 2` as halvings, take the series on the remainder;
/// arguments of 63 halvings or more are zero to Q32 precision.
pub open spec fn exp_neg_spec(x: int) -> int {
    let k = x / (LN2_Q32 as int);
    let r = x % (LN2_Q32 as int);
    if k >= 63 {
        0
    } else {
        shift_down(exp_horner(r, 1), k)
    }
}

/// The Horner accumulator stays within `[0, 1]` in Q32.
proof fn lemma_exp_horner_range(r: int, d: int)
    requires
        0 <= r < 4294967296,
        1 <= d,
    ensures
        0 <= exp_horner(r, d) <= 4294967296,
    decreases 9 - d,
{
    if d < 9 {
        lemma_exp_horner_range(r, d + 1);
        let acc = exp_horner(r, d + 1);
        assert(0 <= (r * acc) / (d * 4294967296) <= 4294967296) by (nonlinear_arith)
            requires
                0 <= r < 4294967296,
                0 <= acc <= 4294967296,
                1 <= d,
        ;
    }
}

/// Halving keeps a value within `[0, p]`.
proof fn lemma_shift_down_range(p: int, k: int)
    requires
        0 <= p,
    ensures
        0 <= shift_down(p, k) <= p,
    decreases k,
{
    if k > 0 {
        lemma_shift_down_range(p / 2, k - 1);
    }
}

/// Computes `exp_neg_spec(x)`.
pub fn exp_neg_q32(x: u64) -> (r: u64)
    ensures
        r as int == exp_neg_spec(x as int),
        r <= ONE_Q32,
{
    let k = x / LN2_Q32;
    let rem = x % LN2_Q32;
    if k >= 63 {
        return 0;
    }
    proof {
        lemma_exp_horner_range(rem as int, 1);
    }
    let mut acc: u64 = ONE_Q32;
    let mut d: u64 = 8;
    while d >= 1
        invariant
            rem < 4294967296,
            d <= 8,
            acc as int == exp_horner(rem as int, d as int + 1),
            0 <= acc <= 4294967296,
        decreases d,
    {
        proof {
            lemma_exp_horner_range(rem as int, d as int);
            assert((rem as int) * (acc as int) <= 4294967296 * 4294967296 && 0 <= (
            rem as int) * (acc as int)) by (nonlinear_arith)
                requires
                    0 <= (rem as int) < 4294967296,
                    0 <= (acc as int) <= 4294967296,
            ;
            assert(0 <= ((rem as int) * (acc as int)) / ((d as int) * 4294967296)
                <= 4294967296) by (nonlinear_arith)
                requires
                    0 <= (rem as int) < 4294967296,
                    0 <= (acc as int) <= 4294967296,
                    1 <= (d as int),
            ;
        }
        let term: u64 = (((rem as u128) * (acc as u128)) / ((d as u128) * 4294967296)) as u64;
        acc = ONE_Q32 - term;
        d = d - 1;
    }
    let mut res: u64 = acc;
    let mut kk: u64 = k;
    while kk > 0
        invariant
            res <= 4294967296,
            shift_down(res as int, kk as int) == shift_down(acc as int, k as int),
        decreases kk,
    {
        res = res / 2;
        kk = kk - 1;
    }
    res
}

/// The saturating Q32 ratio `delta / t`: both are halved together until
/// the divisor fits, and quotients of 63 or more saturate — where the
/// exponential is zero to Q32 precision anyway.
pub open spec fn ratio_spec(delta: int, t: int) -> int
    decreases t,
{
    if t >= 9223372036854775808 {
        ratio_spec(delta / 2, t / 2)
    } else {
        let q = delta / t;
        if q >= 63 {
            63int * 4294967296
        } else {
            q * 4294967296 + ((delta % t) * 4294967296) / t
        }
    }
}

/// Computes `ratio_spec(delta, t)`.
pub fn ratio_q32(delta: i128, t: i128) -> (r: u64)
    requires
        1 <= t,
        0 <= delta,
    ensures
        r as int == ratio_spec(delta as int, t as int),
        r <= 63 * 4294967296,
{
    let mut dd = delta;
    let mut tt = t;
    while tt >= 9223372036854775808
        invariant
            1 <= tt,
            0 <= dd,
            ratio_spec(dd as int, tt as int) == ratio_spec(delta as int, t as int),
        decreases tt,
    {
        dd = dd / 2;
        tt = tt / 2;
    }
    let q = dd / tt;
    if q >= 63 {
        return 63 * 4294967296;
    }
    proof {
        let di = dd as int;
        let ti = tt as int;
        assert(0 <= di % ti < ti && 0 <= di / ti) by (nonlinear_arith)
            requires
                1 <= ti,
                0 <= di,
        ;
        assert((di % ti) * 4294967296 < ti * 4294967296) by (nonlinear_arith)
            requires
                0 <= di % ti < ti,
        ;
        assert(0 <= ((di % ti) * 4294967296) / ti < 4294967296) by (nonlinear_arith)
            requires
                0 <= (di % ti) * 4294967296 < ti * 4294967296,
                1 <= ti,
        ;
    }
    (q * 4294967296 + ((dd % tt) * 4294967296) / tt) as u64
}

} // verus!
