//! Integer model of the birthday-bound hash-length choice.
//!
//! A hash length is long enough for `n` items when the birthday
//! approximation `P = 1 - e^(-n^2 / (2 d))` of the collision probability,
//! with `d = 36^len`, stays below the configured bound `p`. That condition
//! is equivalent to `n^2 < 2 d (-ln(1 - p))`, which this module evaluates
//! in fixed-point arithmetic at scale 10^9: `-ln(1 - p)` is the series sum
//! of `p^k / k`, truncated after 64 terms, with every product floored back
//! to the scale. All quantities stay integers, and the choice of length is
//! provably monotone in the item count and antitone in the bound.

use vstd::prelude::*;
use vstd::arithmetic::div_mod::{lemma_div_is_ordered, lemma_div_multiples_vanish};
use vstd::arithmetic::mul::lemma_mul_inequality;

verus! {

/// The fixed-point scale.
pub const FP_SCALE: u64 = 1000000000;

/// Powers of 36 are capped here so thresholds stay within `u128`.
pub const POW36_CAP: u128 = 309485009821345068724781056;

/// `36^len`, uncapped.
pub open spec fn pow36(len: nat) -> nat
    decreases len,
{
    if len == 0 {
        1
    } else {
        36 * pow36((len - 1) as nat)
    }
}

/// `36^len`, capped at `POW36_CAP`.
pub open spec fn pow36_capped(len: nat) -> nat {
    if pow36(len) > POW36_CAP as nat {
        POW36_CAP as nat
    } else {
        pow36(len)
    }
}

/// `p^k` in fixed point: each multiplication is floored back to the scale.
pub open spec fn series_pow(p_fp: nat, k: nat) -> nat
    decreases k,
{
    if k <= 1 {
        p_fp
    } else {
        (series_pow(p_fp, (k - 1) as nat) * p_fp) / (FP_SCALE as nat)
    }
}

/// The first `k` terms of the series `-ln(1 - p) = sum p^k / k`, in fixed
/// point.
pub open spec fn ln_partial(p_fp: nat, k: nat) -> nat
    decreases k,
{
    if k == 0 {
        0
    } else {
        ln_partial(p_fp, (k - 1) as nat) + series_pow(p_fp, k) / k
    }
}

/// The probability bound `ppm` (parts per million), clamped below 1, taken
/// to fixed point.
pub open spec fn prob_fp(ppm: nat) -> nat {
    if ppm * 1000 > 999999999 {
        999999999
    } else {
        ppm * 1000
    }
}

/// `-ln(1 - p)` in fixed point for a bound of `ppm` parts per million.
pub open spec fn neg_ln_fp(ppm: nat) -> nat {
    ln_partial(prob_fp(ppm), 64)
}

/// The largest `n^2` (exclusive) that a hash length supports under the
/// bound: `2 * 36^len * (-ln(1 - p))`, scaled back down.
pub open spec fn length_threshold(len: nat, ppm: nat) -> nat {
    (2 * pow36_capped(len) * neg_ln_fp(ppm)) / (FP_SCALE as nat)
}

/// The length `len` keeps the collision bound for `n` items.
pub open spec fn length_ok(n: nat, len: nat, ppm: nat) -> bool {
    n * n < length_threshold(len, ppm)
}

/// The first length in `[min, max]` that keeps the bound, or `max` if none
/// (or if the range is empty).
pub open spec fn optimal_len_spec(min: nat, max: nat, n: nat, ppm: nat) -> nat
    decreases max - min,
{
    if min > max {
        max
    } else if length_ok(n, min, ppm) {
        min
    } else if min == max {
        max
    } else {
        optimal_len_spec((min + 1) as nat, max, n, ppm)
    }
}

/// `36^len` is positive.
pub proof fn lemma_pow36_pos(len: nat)
    ensures
        pow36(len) >= 1,
    decreases len,
{
    if len > 0 {
        lemma_pow36_pos((len - 1) as nat);
    }
}

proof fn lemma_mul_div_le(a: nat, p: nat, s: nat)
    requires
        0 < s,
        a < s,
    ensures
        (a * p) / s <= p,
{
    lemma_mul_inequality(a as int, s as int, p as int);
    lemma_div_is_ordered((a * p) as int, (s * p) as int, s as int);
    lemma_div_multiples_vanish(p as int, s as int);
}

/// Every fixed-point power stays at or below the base.
pub proof fn lemma_series_pow_le(p_fp: nat, k: nat)
    requires
        p_fp <= 999999999,
    ensures
        series_pow(p_fp, k) <= p_fp,
    decreases k,
{
    if k > 1 {
        lemma_series_pow_le(p_fp, (k - 1) as nat);
        let a = series_pow(p_fp, (k - 1) as nat);
        if a < FP_SCALE as nat {
            lemma_mul_div_le(a, p_fp, FP_SCALE as nat);
        }
    }
}

/// The partial sums are bounded by `k` whole units.
pub proof fn lemma_ln_partial_le(p_fp: nat, k: nat)
    requires
        p_fp <= 999999999,
    ensures
        ln_partial(p_fp, k) <= k * (FP_SCALE as nat),
    decreases k,
{
    if k > 0 {
        lemma_ln_partial_le(p_fp, (k - 1) as nat);
        lemma_series_pow_le(p_fp, k);
        assert(series_pow(p_fp, k) / k <= series_pow(p_fp, k)) by {
            lemma_mul_inequality(1, k as int, series_pow(p_fp, k) as int);
            lemma_div_is_ordered(
                series_pow(p_fp, k) as int,
                (k * series_pow(p_fp, k)) as int,
                k as int,
            );
            lemma_div_multiples_vanish(series_pow(p_fp, k) as int, k as int);
        }
        assert((k - 1) * (FP_SCALE as nat) + (FP_SCALE as nat) == k * (FP_SCALE as nat))
            by (nonlinear_arith);
    }
}

proof fn lemma_series_pow_monotone(p1: nat, p2: nat, k: nat)
    requires
        p1 <= p2,
    ensures
        series_pow(p1, k) <= series_pow(p2, k),
    decreases k,
{
    if k > 1 {
        lemma_series_pow_monotone(p1, p2, (k - 1) as nat);
        let a1 = series_pow(p1, (k - 1) as nat);
        let a2 = series_pow(p2, (k - 1) as nat);
        assert(a1 * p1 <= a2 * p2) by (nonlinear_arith)
            requires
                a1 <= a2,
                p1 <= p2,
        ;
        lemma_div_is_ordered((a1 * p1) as int, (a2 * p2) as int, FP_SCALE as int);
    }
}

proof fn lemma_ln_partial_monotone(p1: nat, p2: nat, k: nat)
    requires
        p1 <= p2,
    ensures
        ln_partial(p1, k) <= ln_partial(p2, k),
    decreases k,
{
    if k > 0 {
        lemma_ln_partial_monotone(p1, p2, (k - 1) as nat);
        lemma_series_pow_monotone(p1, p2, k);
        lemma_div_is_ordered(series_pow(p1, k) as int, series_pow(p2, k) as int, k as int);
    }
}

/// A larger probability bound never shrinks a length's threshold.
pub proof fn lemma_threshold_monotone(len: nat, ppm1: nat, ppm2: nat)
    requires
        ppm1 <= ppm2,
    ensures
        length_threshold(len, ppm1) <= length_threshold(len, ppm2),
{
    assert(prob_fp(ppm1) <= prob_fp(ppm2)) by {
        lemma_mul_inequality(ppm1 as int, ppm2 as int, 1000);
    }
    lemma_ln_partial_monotone(prob_fp(ppm1), prob_fp(ppm2), 64);
    lemma_mul_inequality(neg_ln_fp(ppm1) as int, neg_ln_fp(ppm2) as int, (2 * pow36_capped(
        len,
    )) as int);
    assert(2 * pow36_capped(len) * neg_ln_fp(ppm1) <= 2 * pow36_capped(len) * neg_ln_fp(ppm2))
        by (nonlinear_arith)
        requires
            neg_ln_fp(ppm1) <= neg_ln_fp(ppm2),
    ;
    lemma_div_is_ordered(
        (2 * pow36_capped(len) * neg_ln_fp(ppm1)) as int,
        (2 * pow36_capped(len) * neg_ln_fp(ppm2)) as int,
        FP_SCALE as int,
    );
}

/// The chosen length never leaves `[min, max]` when that range is
/// non-empty.
pub proof fn lemma_optimal_len_range(min: nat, max: nat, n: nat, ppm: nat)
    requires
        min <= max,
    ensures
        min <= optimal_len_spec(min, max, n, ppm) <= max,
    decreases max - min,
{
    if !length_ok(n, min, ppm) && min < max {
        lemma_optimal_len_range(min + 1, max, n, ppm);
    }
}

/// More items never shorten the chosen length.
///
/// This is the birthday bound's monotonicity: for a fixed configuration,
/// the optimal length is non-decreasing in the item count.
pub proof fn lemma_optimal_len_monotone_in_count(min: nat, max: nat, n1: nat, n2: nat, ppm: nat)
    requires
        n1 <= n2,
    ensures
        optimal_len_spec(min, max, n1, ppm) <= optimal_len_spec(min, max, n2, ppm),
    decreases max - min,
{
    if min <= max {
        if length_ok(n2, min, ppm) {
            assert(n1 * n1 <= n2 * n2) by (nonlinear_arith)
                requires
                    n1 <= n2,
            ;
            assert(length_ok(n1, min, ppm));
        } else if length_ok(n1, min, ppm) {
            if min < max {
                lemma_optimal_len_range(min + 1, max, n2, ppm);
            }
        } else if min < max {
            lemma_optimal_len_monotone_in_count(min + 1, max, n1, n2, ppm);
        }
    }
}

/// A looser collision bound never lengthens the chosen length.
///
/// Raising the accepted collision probability can only keep or shorten the
/// hash length the generator picks.
pub proof fn lemma_optimal_len_antitone_in_prob(min: nat, max: nat, n: nat, ppm1: nat, ppm2: nat)
    requires
        ppm1 <= ppm2,
    ensures
        optimal_len_spec(min, max, n, ppm2) <= optimal_len_spec(min, max, n, ppm1),
    decreases max - min,
{
    if min <= max {
        lemma_threshold_monotone(min, ppm1, ppm2);
        if length_ok(n, min, ppm1) {
            assert(length_ok(n, min, ppm2));
        } else if length_ok(n, min, ppm2) {
            if min < max {
                lemma_optimal_len_range(min + 1, max, n, ppm1);
            }
        } else if min < max {
            lemma_optimal_len_antitone_in_prob(min + 1, max, n, ppm1, ppm2);
        }
    }
}

} // verus!
