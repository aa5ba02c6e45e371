//! The evaluator: collapsing a per-metric stats vector into one scalar
//! score.
//!
//! An evaluator is built from `(metric index, signed raw weight)` pairs
//! whose raw weights must sum to a positive value; a negative weight
//! expresses "maximize this metric". The score it computes is the exact
//! integer numerator `sum of weight * stat` over the fixed positive
//! denominator `weight_sum`: two scores of the same evaluator compare
//! exactly as the normalized weighted means would.

use vstd::prelude::*;

use crate::sums::{lemma_sum_n_abs, lemma_sum_n_add, lemma_sum_n_scale, sum_n};
use crate::{EngineError, MAX_METRICS, SCORE_BOUND, STAT_BOUND};

verus! {

/// The `k`-th weighted stat, as a function of `k`.
pub open spec fn weight_fn(pairs: Seq<(usize, i16)>, stats: Seq<int>) -> spec_fn(int) -> int {
    |k: int| (pairs[k].1 as int) * stats[pairs[k].0 as int]
}

/// The score numerator: the sum of `weight * stat` over the stored pairs.
/// Stats of metrics outside the pairs are ignored.
pub open spec fn eval_spec(pairs: Seq<(usize, i16)>, stats: Seq<int>) -> int {
    sum_n(pairs.len() as int, weight_fn(pairs, stats))
}

/// The `k`-th raw weight, as a function of `k`.
pub open spec fn raw_weight_fn(pairs: Seq<(usize, i16)>) -> spec_fn(int) -> int {
    |k: int| pairs[k].1 as int
}

/// The sum of the raw weights: the score's fixed denominator.
pub open spec fn sum_weights(pairs: Seq<(usize, i16)>) -> int {
    sum_n(pairs.len() as int, raw_weight_fn(pairs))
}

/// The stats vector as mathematical integers.
pub open spec fn int_view(stats: Seq<i128>) -> Seq<int> {
    stats.map_values(|x: i128| x as int)
}

/// The pointwise combination `aa * x + bb * y` of two stats vectors.
pub open spec fn lin_comb(aa: int, x: Seq<int>, bb: int, y: Seq<int>) -> Seq<int> {
    Seq::new(x.len(), |i: int| aa * x[i] + bb * y[i])
}

/// Signed metric weights over a positive weight sum.
pub struct Evaluator {
    pub metrics: Vec<(usize, i16)>,
    pub weight_sum: i64,
}

impl Evaluator {
    /// The stored sum is the actual raw weight sum, and it is positive.
    pub open spec fn wf(self) -> bool {
        &&& 1 <= self.metrics@.len() <= MAX_METRICS
        &&& self.weight_sum as int == sum_weights(self.metrics@)
        &&& self.weight_sum > 0
    }

    /// Every stored metric index addresses a stats vector of length `n`.
    pub open spec fn indices_ok(self, n: int) -> bool {
        forall|k: int| 0 <= k < self.metrics@.len() ==> ((#[trigger] self.metrics@[k]).0 as int) < n
    }

    /// Builds an evaluator from raw weighted metric pairs.
    ///
    /// Fails with `EmptyMetricSet` when no pair is given, and with
    /// `DegenerateWeights` when the raw weights sum to zero — which would
    /// leave the normalization undefined — or to a negative value, which
    /// would flip every comparison. At most one pair per metric makes
    /// sense, so callers keep the list within the metric-count bound.
    pub fn new(metrics: Vec<(usize, i16)>) -> (r: Result<Evaluator, EngineError>)
        requires
            metrics@.len() <= MAX_METRICS,
        ensures
            r is Ok <==> (metrics@.len() >= 1 && sum_weights(metrics@) > 0),
            r is Ok ==> (r->Ok_0.metrics == metrics && r->Ok_0.wf()),
            r == Result::<Evaluator, EngineError>::Err(EngineError::EmptyMetricSet) <==> metrics@.len() == 0,
            r == Result::<Evaluator, EngineError>::Err(EngineError::DegenerateWeights) <==> (
            metrics@.len() >= 1 && sum_weights(metrics@) <= 0),
    {
        if metrics.len() == 0 {
            return Err(EngineError::EmptyMetricSet);
        }
        let mut sum: i64 = 0;
        let mut k: usize = 0;
        while k < metrics.len()
            invariant
                k <= metrics@.len(),
                metrics@.len() <= MAX_METRICS,
                -32768 * 1024 <= sum <= 32768 * 1024,
                sum as int == sum_n(k as int, raw_weight_fn(metrics@)),
            decreases metrics@.len() - k,
        {
            proof {
                lemma_sum_n_abs(k as int, 32768, raw_weight_fn(metrics@));
                assert((k as int) * 32768 <= 1024 * 32768) by (nonlinear_arith)
                    requires
                        0 <= k <= 1024,
                ;
            }
            sum = sum + metrics[k].1 as i64;
            k = k + 1;
        }
        if sum <= 0 {
            return Err(EngineError::DegenerateWeights);
        }
        Ok(Evaluator { metrics, weight_sum: sum })
    }

    /// The score numerator of a stats vector: exactly
    /// `sum of weight * stat` over the stored pairs. Dividing by
    /// `weight_sum` — positive by construction — would give the normalized
    /// score; comparisons of numerators are comparisons of scores.
    pub fn eval(&self, stats: &Vec<i128>) -> (score: i128)
        requires
            self.wf(),
            self.indices_ok(stats@.len() as int),
            forall|m: int|
                0 <= m < stats@.len() ==> -(STAT_BOUND * 2) <= (#[trigger] stats@[m]) <= STAT_BOUND
                    * 2,
        ensures
            score as int == eval_spec(self.metrics@, int_view(stats@)),
            -(SCORE_BOUND * 2) <= score <= SCORE_BOUND * 2,
    {
        let ghost pairs = self.metrics@;
        let ghost sview = int_view(stats@);
        let ghost sbound = (STAT_BOUND * 2) as int;
        proof {
            lemma_all_weight_bounds(pairs, sview, sbound);
        }
        let mut score: i128 = 0;
        let mut k: usize = 0;
        while k < self.metrics.len()
            invariant
                self.wf(),
                self.indices_ok(stats@.len() as int),
                forall|m: int|
                    0 <= m < stats@.len() ==> -(STAT_BOUND * 2) <= (#[trigger] stats@[m])
                        <= STAT_BOUND * 2,
                pairs == self.metrics@,
                sview == int_view(stats@),
                k <= pairs.len(),
                score as int == sum_n(k as int, weight_fn(pairs, sview)),
            decreases pairs.len() - k,
        {
            proof {
                let ghost sbound2 = (STAT_BOUND * 2) as int;
                lemma_all_weight_bounds(pairs, sview, sbound2);
                lemma_sum_n_abs(k as int, 32768 * sbound2, weight_fn(pairs, sview));
                assert((k as int) * (32768 * sbound2) <= 1024 * (32768 * sbound2))
                    by (nonlinear_arith)
                    requires
                        0 <= k <= 1024,
                        sbound2 > 0,
                ;
                let w = pairs[k as int].1 as int;
                let s = sview[pairs[k as int].0 as int];
                assert(-(32768 * sbound2) <= w * s <= 32768 * sbound2) by (nonlinear_arith)
                    requires
                        -32768 <= w <= 32768,
                        -sbound2 <= s <= sbound2,
                        sbound2 > 0,
                ;
            }
            let (m, w) = self.metrics[k];
            let term: i128 = (w as i128) * stats[m];
            score = score + term;
            k = k + 1;
        }
        proof {
            lemma_sum_n_abs(pairs.len() as int, 32768 * sbound, weight_fn(pairs, sview));
            assert((pairs.len() as int) * (32768 * sbound) <= 1024 * (32768 * sbound))
                by (nonlinear_arith)
                requires
                    0 <= pairs.len() <= 1024,
                    sbound > 0,
            ;
        }
        score
    }
}

/// Each weighted term of a bounded stats vector is bounded.
proof fn lemma_all_weight_bounds(pairs: Seq<(usize, i16)>, stats: Seq<int>, b: int)
    requires
        b > 0,
        forall|k: int| 0 <= k < pairs.len() ==> ((#[trigger] pairs[k]).0 as int) < stats.len(),
        forall|m: int| 0 <= m < stats.len() ==> -b <= (#[trigger] stats[m]) <= b,
    ensures
        forall|k: int|
            0 <= k < pairs.len() ==> -(32768 * b) <= #[trigger] weight_fn(pairs, stats)(k) <= 32768
                * b,
{
    assert forall|k: int| 0 <= k < pairs.len() implies -(32768 * b) <= #[trigger] weight_fn(
        pairs,
        stats,
    )(k) <= 32768 * b by {
        let w = pairs[k].1 as int;
        let s = stats[pairs[k].0 as int];
        assert(-(32768 * b) <= w * s <= 32768 * b) by (nonlinear_arith)
            requires
                -32768 <= w <= 32768,
                -b <= s <= b,
                b > 0,
        ;
    }
}

/// A score over stats bounded by `b` is bounded by `1024 * 32768 * b`.
pub proof fn lemma_eval_bound(pairs: Seq<(usize, i16)>, stats: Seq<int>, b: int)
    requires
        b > 0,
        pairs.len() <= MAX_METRICS,
        forall|k: int| 0 <= k < pairs.len() ==> ((#[trigger] pairs[k]).0 as int) < stats.len(),
        forall|m: int| 0 <= m < stats.len() ==> -b <= (#[trigger] stats[m]) <= b,
    ensures
        -(1024 * (32768 * b)) <= eval_spec(pairs, stats) <= 1024 * (32768 * b),
{
    lemma_all_weight_bounds(pairs, stats, b);
    lemma_sum_n_abs(pairs.len() as int, 32768 * b, weight_fn(pairs, stats));
    assert((pairs.len() as int) * (32768 * b) <= 1024 * (32768 * b)) by (nonlinear_arith)
        requires
            0 <= pairs.len() <= 1024,
            b > 0,
    ;
}

/// The evaluator is linear: on the pointwise combination
/// `aa * x + bb * y` of two stats vectors it scores
/// `aa * eval(x) + bb * eval(y)`.
pub proof fn lemma_eval_linear(pairs: Seq<(usize, i16)>, aa: int, x: Seq<int>, bb: int, y: Seq<int>)
    requires
        x.len() == y.len(),
        forall|k: int| 0 <= k < pairs.len() ==> ((#[trigger] pairs[k]).0 as int) < x.len(),
    ensures
        eval_spec(pairs, lin_comb(aa, x, bb, y)) == aa * eval_spec(pairs, x) + bb * eval_spec(
            pairs,
            y,
        ),
{
    let n = pairs.len() as int;
    let fx = weight_fn(pairs, x);
    let fy = weight_fn(pairs, y);
    let fc = weight_fn(pairs, lin_comb(aa, x, bb, y));
    let gx: spec_fn(int) -> int = |k: int| aa * fx(k);
    let gy: spec_fn(int) -> int = |k: int| bb * fy(k);
    assert forall|k: int| 0 <= k < n implies #[trigger] fc(k) == gx(k) + gy(k) by {
        let w = pairs[k].1 as int;
        let m = pairs[k].0 as int;
        assert(lin_comb(aa, x, bb, y)[m] == aa * x[m] + bb * y[m]);
        assert(w * (aa * x[m] + bb * y[m]) == aa * (w * x[m]) + bb * (w * y[m]))
            by (nonlinear_arith);
    }
    lemma_sum_n_add(n, gx, gy, fc);
    lemma_sum_n_scale(n, aa, fx, gx);
    lemma_sum_n_scale(n, bb, fy, gy);
}

} // verus!
