//! Search drivers over the space of layouts.
//!
//! All drivers share a context of seed layout, analyzer, precomputed swap
//! list, evaluator and pinned-prefix length. Each run shuffles the
//! positions at and beyond the pin of a clone of the seed, walks the space
//! by swaps drawn from the context's list, and reports `(iterations,
//! score, stats, final layout)` with the stats recomputed from scratch at
//! the end — so the reported vector is exactly the final layout's stats,
//! free of any incremental drift. Pinned positions never move, and every
//! run returns a permutation of the seed's codes.

use vstd::prelude::*;

use crate::analyzer::{reset_stats, zero_stats, Analyzer};
use crate::evaluator::{eval_spec, int_view, lin_comb, lemma_eval_bound, lemma_eval_linear, Evaluator};
use crate::layout::{apply_swap, Layout, Swap};
use crate::rng::shuffle_tail;
use crate::{EngineError, SCORE_BOUND, STAT_BOUND};

verus! {

/// The four search strategies.
#[derive(Clone, Copy, PartialEq, Eq, Structural, Debug)]
pub enum GenerationStrategy {
    GreedyDeterministic,
    GreedyNaive,
    SimulatedAnnealing,
    DDAKOSimulatedAnnealing,
}

/// The score of a layout: the evaluator's numerator over the analyzer's
/// exact stats.
pub open spec fn score_of(an: Analyzer, ev: Evaluator, l: Seq<usize>) -> int {
    eval_spec(ev.metrics@, an.stats_spec(l))
}

/// Scores of compatible layouts are bounded.
pub proof fn lemma_score_bound(an: Analyzer, ev: Evaluator, l: Seq<usize>)
    requires
        an.wf(),
        an.compatible(l),
        ev.wf(),
        ev.indices_ok(an.data.metric_count()),
    ensures
        -SCORE_BOUND <= score_of(an, ev, l) <= SCORE_BOUND,
{
    let stats = an.stats_spec(l);
    assert forall|m: int| 0 <= m < stats.len() implies -(STAT_BOUND as int) <= (#[trigger] stats[m])
        <= STAT_BOUND as int by {
        crate::analyzer::lemma_stat_bound(
            an.data.kinds(),
            an.corpus,
            l,
            an.data.strokes_view(),
            m,
            an.data.metric_count(),
        );
    }
    lemma_eval_bound(ev.metrics@, stats, STAT_BOUND as int);
}

/// A vector holding exactly the per-metric swap deltas evaluates to the
/// swapped layout's score minus the current one's: the delta identity,
/// lifted through the evaluator's linearity.
pub proof fn lemma_score_delta(
    an: Analyzer,
    ev: Evaluator,
    l: Seq<usize>,
    a: int,
    b: int,
    dv: Seq<i128>,
)
    requires
        ev.indices_ok(an.data.metric_count()),
        dv.len() == an.data.metric_count(),
        forall|m: int|
            0 <= m < dv.len() ==> (#[trigger] dv[m]) as int == an.stat(apply_swap(l, a, b), m)
                - an.stat(l, m),
    ensures
        eval_spec(ev.metrics@, int_view(dv)) == score_of(an, ev, apply_swap(l, a, b)) - score_of(
            an,
            ev,
            l,
        ),
{
    let lp = apply_swap(l, a, b);
    let x = an.stats_spec(lp);
    let y = an.stats_spec(l);
    assert(int_view(dv) =~= lin_comb(1, x, -1, y));
    lemma_eval_linear(ev.metrics@, 1, x, -1, y);
    assert forall|m: int| 0 <= m < x.len() implies #[trigger] lin_comb(1, x, -1, y)[m] == x[m]
        - y[m] by {
        assert(1 * x[m] + (-1) * y[m] == x[m] - y[m]) by (nonlinear_arith);
    }
}

/// No swap of the list strictly improves the layout's score: the layout
/// is a local optimum of the swap neighborhood.
pub open spec fn is_local_optimum(an: Analyzer, ev: Evaluator, swaps: Seq<Swap>, l: Seq<usize>) -> bool {
    forall|k: int|
        0 <= k < swaps.len() ==> score_of(
            an,
            ev,
            apply_swap(l, (#[trigger] swaps[k]).a as int, swaps[k].b as int),
        ) >= score_of(an, ev, l)
}

/// Everything one search run needs: the seed layout, the engine, the
/// precomputed swap list, the evaluator, and the pinned-prefix length.
pub struct OptimizationContext {
    pub layout: Layout,
    pub analyzer: Analyzer,
    pub possible_swaps: Vec<Swap>,
    pub evaluator: Evaluator,
    pub pin: usize,
}

impl OptimizationContext {
    /// Every listed swap exchanges two distinct unpinned positions.
    pub open spec fn swaps_ok(self) -> bool {
        forall|k: int|
            0 <= k < self.possible_swaps@.len() ==> {
                &&& self.pin <= (#[trigger] self.possible_swaps@[k]).a < self.layout@.len()
                &&& self.pin <= self.possible_swaps@[k].b < self.layout@.len()
                &&& self.possible_swaps@[k].a != self.possible_swaps@[k].b
            }
    }

    /// Every ordered pair of distinct unpinned positions is listed.
    pub open spec fn swaps_complete(self) -> bool {
        forall|x: usize, y: usize|
            self.pin <= x < self.layout@.len() && self.pin <= y < self.layout@.len() && x != y
                ==> #[trigger] self.possible_swaps@.contains(Swap { a: x, b: y })
    }

    /// The context is ready for a driver.
    pub open spec fn wf(self) -> bool {
        &&& self.analyzer.wf()
        &&& self.analyzer.compatible(self.layout@)
        &&& self.evaluator.wf()
        &&& self.evaluator.indices_ok(self.analyzer.data.metric_count())
        &&& self.pin <= self.layout@.len()
        &&& self.swaps_ok()
    }

    /// Assembles a context, validating the layout against the keyboard and
    /// the corpus, the pin against the layout, and the evaluator's metric
    /// indices against the metric list, and precomputing all ordered pairs
    /// of distinct unpinned positions.
    ///
    /// Fails with `IncompatibleLayout` when the layout's length is not the
    /// keyboard's position count, a code is outside the corpus, or the pin
    /// exceeds the layout; and with `MetricNotFound` when the evaluator
    /// weights a metric index no descriptor owns.
    pub fn new(layout: Layout, analyzer: Analyzer, evaluator: Evaluator, pin: usize) -> (r: Result<
        OptimizationContext,
        EngineError,
    >)
        requires
            analyzer.wf(),
            evaluator.wf(),
        ensures
            r is Ok <==> (analyzer.compatible(layout@) && pin <= layout@.len()
                && evaluator.indices_ok(analyzer.data.metric_count())),
            r is Ok ==> {
                &&& r->Ok_0.wf()
                &&& r->Ok_0.swaps_complete()
                &&& r->Ok_0.layout == layout
                &&& r->Ok_0.analyzer == analyzer
                &&& r->Ok_0.evaluator == evaluator
                &&& r->Ok_0.pin == pin
            },
            r == Result::<OptimizationContext, EngineError>::Err(EngineError::IncompatibleLayout)
                <==> !(analyzer.compatible(layout@) && pin <= layout@.len()),
            r == Result::<OptimizationContext, EngineError>::Err(EngineError::MetricNotFound) <==> (
            analyzer.compatible(layout@) && pin <= layout@.len() && !evaluator.indices_ok(
                analyzer.data.metric_count(),
            )),
    {
        if layout.0.len() != analyzer.data.position_strokes.len() {
            return Err(EngineError::IncompatibleLayout);
        }
        let n = analyzer.corpus.chars.len();
        let mut p: usize = 0;
        while p < layout.0.len()
            invariant
                p <= layout@.len(),
                n == analyzer.corpus.n(),
                forall|q: int| 0 <= q < p ==> (#[trigger] layout@[q]) < n,
            decreases layout@.len() - p,
        {
            if layout.0[p] >= n {
                return Err(EngineError::IncompatibleLayout);
            }
            p = p + 1;
        }
        if pin > layout.0.len() {
            return Err(EngineError::IncompatibleLayout);
        }
        proof {
            assert(analyzer.compatible(layout@));
        }
        let mut k: usize = 0;
        while k < evaluator.metrics.len()
            invariant
                analyzer.compatible(layout@),
                pin <= layout@.len(),
                k <= evaluator.metrics@.len(),
                forall|q: int|
                    0 <= q < k ==> ((#[trigger] evaluator.metrics@[q]).0 as int)
                        < analyzer.data.metric_count(),
            decreases evaluator.metrics@.len() - k,
        {
            if evaluator.metrics[k].0 >= analyzer.data.metrics.len() {
                proof {
                    assert(((evaluator.metrics@[k as int]).0 as int)
                        >= analyzer.data.metric_count());
                    assert(!evaluator.indices_ok(analyzer.data.metric_count()));
                }
                return Err(EngineError::MetricNotFound);
            }
            k = k + 1;
        }
        let possible_swaps = build_possible_swaps(layout.0.len(), pin);
        Ok(OptimizationContext { layout, analyzer, possible_swaps, evaluator, pin })
    }
}

/// A sequence whose codes all occur in a compatible seed is itself
/// compatible.
proof fn lemma_contained_valid(an: Analyzer, seed: Seq<usize>, l: Seq<usize>)
    requires
        an.compatible(seed),
        l.len() == seed.len(),
        forall|p: int| 0 <= p < l.len() ==> seed.contains(#[trigger] l[p]),
    ensures
        an.compatible(l),
{
    assert forall|p: int| 0 <= p < l.len() implies (#[trigger] l[p]) < an.corpus.n() by {
        assert(seed.contains(l[p]));
        let q = choose|q: int| 0 <= q < seed.len() && seed[q] == l[p];
        assert(seed[q] < an.corpus.n());
    }
}

/// Applying an unpinned swap keeps a layout compatible, keeps the pinned
/// prefix, and keeps the multiset of codes.
proof fn lemma_swap_step(an: Analyzer, l: Seq<usize>, a: int, b: int, pin: int, seed: Seq<usize>)
    requires
        an.compatible(l),
        0 <= a < l.len(),
        0 <= b < l.len(),
        pin <= a,
        pin <= b,
        l.len() == seed.len(),
        forall|i: int| 0 <= i < pin ==> l[i] == seed[i],
        l.to_multiset() == seed.to_multiset(),
    ensures
        an.compatible(apply_swap(l, a, b)),
        apply_swap(l, a, b).len() == seed.len(),
        forall|i: int| 0 <= i < pin ==> apply_swap(l, a, b)[i] == seed[i],
        apply_swap(l, a, b).to_multiset() == seed.to_multiset(),
{
    let lp = apply_swap(l, a, b);
    crate::layout::lemma_swap_multiset(l, a, b);
    assert forall|p: int| 0 <= p < lp.len() implies (#[trigger] lp[p]) < an.corpus.n() by {
        if p == b {
            assert(lp[p] == l[a]);
        } else if p == a {
            assert(lp[p] == l[b]);
        } else {
            assert(lp[p] == l[p]);
        }
    }
    assert forall|i: int| 0 <= i < pin implies apply_swap(l, a, b)[i] == seed[i] by {
        assert(lp[i] == l[i]);
    }
}

/// Recomputes the stats of the final layout from scratch, scores them,
/// and assembles a driver's result record.
fn finish_run(an: &Analyzer, ev: &Evaluator, iters: u32, layout: Layout) -> (r: (
    u32,
    i128,
    Vec<i128>,
    Layout,
))
    requires
        an.wf(),
        an.compatible(layout@),
        ev.wf(),
        ev.indices_ok(an.data.metric_count()),
    ensures
        r.0 == iters,
        r.3 == layout,
        r.2@.len() == an.data.metric_count(),
        forall|m: int|
            0 <= m < r.2@.len() ==> (#[trigger] r.2@[m]) as int == an.stat(layout@, m),
        r.1 as int == score_of(*an, *ev, layout@),
{
    let stats = an.calc_stats(&layout);
    let score = ev.eval(&stats);
    proof {
        assert(int_view(stats@) =~= an.stats_spec(layout@));
    }
    (iters, score, stats, layout)
}

/// One steepest-descent step: scores every possible swap's delta, and
/// applies the best one when it strictly improves the layout's score.
/// Each applied step strictly decreases the score — the monotone descent
/// invariant of the deterministic driver — and a layout at a fixed point
/// is returned unchanged.
pub fn descend_once(
    analyzer: &Analyzer,
    evaluator: &Evaluator,
    swaps: &Vec<Swap>,
    layout: &mut Layout,
) -> (improved: bool)
    requires
        analyzer.wf(),
        evaluator.wf(),
        evaluator.indices_ok(analyzer.data.metric_count()),
        analyzer.compatible(old(layout)@),
        forall|k: int|
            0 <= k < swaps@.len() ==> ((#[trigger] swaps@[k]).a < old(layout)@.len()
                && swaps@[k].b < old(layout)@.len() && swaps@[k].a != swaps@[k].b),
    ensures
        final(layout)@.len() == old(layout)@.len(),
        analyzer.compatible(final(layout)@),
        final(layout)@.to_multiset() == old(layout)@.to_multiset(),
        improved ==> score_of(*analyzer, *evaluator, final(layout)@) < score_of(
            *analyzer,
            *evaluator,
            old(layout)@,
        ),
        !improved ==> final(layout)@ == old(layout)@,
        !improved ==> is_local_optimum(*analyzer, *evaluator, swaps@, final(layout)@),
        improved ==> exists|k: int|
            0 <= k < swaps@.len() && final(layout)@ == apply_swap(
                old(layout)@,
                (#[trigger] swaps@[k]).a as int,
                swaps@[k].b as int,
            ),
{
    let ghost l0 = layout@;
    let ghost an = *analyzer;
    let ghost ev = *evaluator;
    let mut diff = zero_stats(analyzer.data.metrics.len());
    let mut best_score: i128 = 0;
    let mut best_k: usize = 0;
    let mut found = false;
    let mut k: usize = 0;
    while k < swaps.len()
        invariant
            analyzer.wf(),
            evaluator.wf(),
            evaluator.indices_ok(analyzer.data.metric_count()),
            an == *analyzer,
            ev == *evaluator,
            analyzer.compatible(layout@),
            layout@ == l0,
            forall|kk: int|
                0 <= kk < swaps@.len() ==> ((#[trigger] swaps@[kk]).a < layout@.len()
                    && swaps@[kk].b < layout@.len() && swaps@[kk].a != swaps@[kk].b),
            diff@.len() == analyzer.data.metric_count(),
            k <= swaps@.len(),
            found ==> best_k < swaps@.len(),
            found ==> best_score as int == score_of(
                an,
                ev,
                apply_swap(l0, swaps@[best_k as int].a as int, swaps@[best_k as int].b as int),
            ) - score_of(an, ev, l0),
            found ==> best_score < 0,
            !found ==> best_score == 0,
            forall|kk: int|
                0 <= kk < k ==> score_of(
                    an,
                    ev,
                    apply_swap(l0, (#[trigger] swaps@[kk]).a as int, swaps@[kk].b as int),
                ) - score_of(an, ev, l0) >= best_score,
        decreases swaps@.len() - k,
    {
        reset_stats(&mut diff);
        let sw = swaps[k];
        analyzer.swap_diff(&mut diff, layout, &sw);
        let sc = evaluator.eval(&diff);
        proof {
            lemma_score_delta(an, ev, l0, sw.a as int, sw.b as int, diff@);
        }
        if sc < best_score {
            best_score = sc;
            best_k = k;
            found = true;
        }
        k = k + 1;
    }
    if found {
        let sw = swaps[best_k];
        proof {
            crate::layout::lemma_swap_multiset(l0, sw.a as int, sw.b as int);
        }
        layout.swap(&sw);
        proof {
            let lp = apply_swap(l0, sw.a as int, sw.b as int);
            assert forall|p: int| 0 <= p < lp.len() implies (#[trigger] lp[p])
                < analyzer.corpus.n() by {
                if p == sw.b {
                    assert(lp[p] == l0[sw.a as int]);
                } else if p == sw.a {
                    assert(lp[p] == l0[sw.b as int]);
                } else {
                    assert(lp[p] == l0[p]);
                }
            }
            assert(layout@ == apply_swap(l0, swaps@[best_k as int].a as int, swaps@[
            best_k as int].b as int));
        }
    }
    found
}

/// Deterministic steepest descent: shuffles the unpinned tail of a clone
/// of the seed, then repeatedly applies the best strictly-improving swap
/// until no swap improves the score. Exact integer scores make every
/// accepted step decrease the score by at least one, so the walk
/// terminates at a local optimum; the reported stats are recomputed from
/// scratch there.
pub fn greedy_neighbor_optimization(ctx: &OptimizationContext, rng: &mut rand::rngs::StdRng) -> (r:
    (u32, i128, Vec<i128>, Layout))
    requires
        ctx.wf(),
    ensures
        r.3@.len() == ctx.layout@.len(),
        forall|i: int| 0 <= i < ctx.pin ==> r.3@[i] == ctx.layout@[i],
        r.3@.to_multiset() == ctx.layout@.to_multiset(),
        ctx.analyzer.compatible(r.3@),
        r.2@.len() == ctx.analyzer.data.metric_count(),
        forall|m: int|
            0 <= m < r.2@.len() ==> (#[trigger] r.2@[m]) as int == ctx.analyzer.stat(r.3@, m),
        r.1 as int == score_of(ctx.analyzer, ctx.evaluator, r.3@),
        is_local_optimum(ctx.analyzer, ctx.evaluator, ctx.possible_swaps@, r.3@),
{
    let ghost an = ctx.analyzer;
    let ghost ev = ctx.evaluator;
    let ghost seed = ctx.layout@;
    let mut layout = ctx.layout.duplicate();
    shuffle_tail(&mut layout, ctx.pin, rng);
    proof {
        lemma_contained_valid(an, seed, layout@);
        lemma_score_bound(an, ev, layout@);
    }
    let mut iters: u32 = 0;
    let mut improved = true;
    while improved
        invariant
            ctx.wf(),
            an == ctx.analyzer,
            ev == ctx.evaluator,
            seed == ctx.layout@,
            layout@.len() == seed.len(),
            ctx.analyzer.compatible(layout@),
            forall|i: int| 0 <= i < ctx.pin ==> layout@[i] == seed[i],
            layout@.to_multiset() == seed.to_multiset(),
            -SCORE_BOUND <= score_of(an, ev, layout@) <= SCORE_BOUND,
            !improved ==> is_local_optimum(an, ev, ctx.possible_swaps@, layout@),
        decreases (SCORE_BOUND as int) + score_of(an, ev, layout@), (if improved {
            1int
        } else {
            0int
        }),
    {
        let ghost before = layout@;
        improved = descend_once(&ctx.analyzer, &ctx.evaluator, &ctx.possible_swaps, &mut layout);
        proof {
            if improved {
                let k = choose|k: int|
                    0 <= k < ctx.possible_swaps@.len() && layout@ == apply_swap(
                        before,
                        (#[trigger] ctx.possible_swaps@[k]).a as int,
                        ctx.possible_swaps@[k].b as int,
                    );
                lemma_swap_step(
                    an,
                    before,
                    ctx.possible_swaps@[k].a as int,
                    ctx.possible_swaps@[k].b as int,
                    ctx.pin as int,
                    seed,
                );
            }
            lemma_score_bound(an, ev, layout@);
        }
        if improved {
            if iters < 4294967295 {
                iters = iters + 1;
            }
        }
    }
    finish_run(&ctx.analyzer, &ctx.evaluator, iters, layout)
}

/// A first-improvement random walk over `trials` uniformly drawn swaps:
/// a drawn swap is applied exactly when its delta scores strictly
/// negative; worsening moves are never accepted. Returns the trial index
/// of the last accepted swap (0 when none was accepted).
pub fn greedy_naive_run(ctx: &OptimizationContext, rng: &mut rand::rngs::StdRng, trials: u32) -> (r:
    (u32, i128, Vec<i128>, Layout))
    requires
        ctx.wf(),
    ensures
        r.0 == 0 || r.0 < trials,
        r.3@.len() == ctx.layout@.len(),
        forall|i: int| 0 <= i < ctx.pin ==> r.3@[i] == ctx.layout@[i],
        r.3@.to_multiset() == ctx.layout@.to_multiset(),
        ctx.analyzer.compatible(r.3@),
        r.2@.len() == ctx.analyzer.data.metric_count(),
        forall|m: int|
            0 <= m < r.2@.len() ==> (#[trigger] r.2@[m]) as int == ctx.analyzer.stat(r.3@, m),
        r.1 as int == score_of(ctx.analyzer, ctx.evaluator, r.3@),
{
    let ghost an = ctx.analyzer;
    let ghost ev = ctx.evaluator;
    let ghost seed = ctx.layout@;
    let mut layout = ctx.layout.duplicate();
    shuffle_tail(&mut layout, ctx.pin, rng);
    proof {
        lemma_contained_valid(an, seed, layout@);
    }
    let mut swap_i: u32 = 0;
    if ctx.possible_swaps.len() >= 1 {
        let mut diff = zero_stats(ctx.analyzer.data.metrics.len());
        let mut t: u32 = 0;
        while t < trials
            invariant
                ctx.wf(),
                an == ctx.analyzer,
                ev == ctx.evaluator,
                seed == ctx.layout@,
                ctx.possible_swaps@.len() >= 1,
                layout@.len() == seed.len(),
                ctx.analyzer.compatible(layout@),
                forall|i: int| 0 <= i < ctx.pin ==> layout@[i] == seed[i],
                layout@.to_multiset() == seed.to_multiset(),
                diff@.len() == ctx.analyzer.data.metric_count(),
                t <= trials,
                swap_i == 0 || swap_i < t,
            decreases trials - t,
        {
            let k = crate::rng::rng_below(rng, ctx.possible_swaps.len() as u64) as usize;
            let sw = ctx.possible_swaps[k];
            reset_stats(&mut diff);
            ctx.analyzer.swap_diff(&mut diff, &layout, &sw);
            let sc = ctx.evaluator.eval(&diff);
            if sc < 0 {
                proof {
                    lemma_swap_step(an, layout@, sw.a as int, sw.b as int, ctx.pin as int, seed);
                }
                layout.swap(&sw);
                swap_i = t;
            }
            t = t + 1;
        }
    }
    finish_run(&ctx.analyzer, &ctx.evaluator, swap_i, layout)
}

/// The randomized greedy walk with its standard budget of 5000
/// trials.
pub fn greedy_naive_optimization(ctx: &OptimizationContext, rng: &mut rand::rngs::StdRng) -> (r: (
    u32,
    i128,
    Vec<i128>,
    Layout,
))
    requires
        ctx.wf(),
    ensures
        r.0 < 5000,
        r.3@.len() == ctx.layout@.len(),
        forall|i: int| 0 <= i < ctx.pin ==> r.3@[i] == ctx.layout@[i],
        r.3@.to_multiset() == ctx.layout@.to_multiset(),
        ctx.analyzer.compatible(r.3@),
        r.2@.len() == ctx.analyzer.data.metric_count(),
        forall|m: int|
            0 <= m < r.2@.len() ==> (#[trigger] r.2@[m]) as int == ctx.analyzer.stat(r.3@, m),
        r.1 as int == score_of(ctx.analyzer, ctx.evaluator, r.3@),
{
    greedy_naive_run(ctx, rng, 5000)
}

/// Fixed-schedule simulated annealing over `iterations` uniformly drawn
/// swaps, with a linearly cooling acceptance temperature that starts at
/// the exact rational `t_num / t_den`.
///
/// Iteration `i` accepts its swap when the delta scores strictly negative,
/// or, for a worsening move, with probability `(t_num / t_den) * (1 -
/// i / iterations)` — the temperature itself is the acceptance chance, by
/// an exact integer draw; no Metropolis exponential is involved. With
/// `t_num == 0` no acceptance draw is made at all, so the run consumes the
/// same random stream as the greedy walk and accepts exactly its moves.
pub fn sa_run(
    ctx: &OptimizationContext,
    rng: &mut rand::rngs::StdRng,
    iterations: u32,
    t_num: u32,
    t_den: u32,
) -> (r: (u32, i128, Vec<i128>, Layout))
    requires
        ctx.wf(),
        1 <= t_den <= 65536,
        t_num <= 65536,
        iterations <= 1000000000,
    ensures
        r.0 == iterations,
        r.3@.len() == ctx.layout@.len(),
        forall|i: int| 0 <= i < ctx.pin ==> r.3@[i] == ctx.layout@[i],
        r.3@.to_multiset() == ctx.layout@.to_multiset(),
        ctx.analyzer.compatible(r.3@),
        r.2@.len() == ctx.analyzer.data.metric_count(),
        forall|m: int|
            0 <= m < r.2@.len() ==> (#[trigger] r.2@[m]) as int == ctx.analyzer.stat(r.3@, m),
        r.1 as int == score_of(ctx.analyzer, ctx.evaluator, r.3@),
{
    let ghost an = ctx.analyzer;
    let ghost ev = ctx.evaluator;
    let ghost seed = ctx.layout@;
    let mut layout = ctx.layout.duplicate();
    shuffle_tail(&mut layout, ctx.pin, rng);
    proof {
        lemma_contained_valid(an, seed, layout@);
    }
    if ctx.possible_swaps.len() >= 1 {
        let mut diff = zero_stats(ctx.analyzer.data.metrics.len());
        let mut t: u32 = 0;
        while t < iterations
            invariant
                ctx.wf(),
                an == ctx.analyzer,
                ev == ctx.evaluator,
                seed == ctx.layout@,
                ctx.possible_swaps@.len() >= 1,
                1 <= t_den <= 65536,
                t_num <= 65536,
                iterations <= 1000000000,
                layout@.len() == seed.len(),
                ctx.analyzer.compatible(layout@),
                forall|i: int| 0 <= i < ctx.pin ==> layout@[i] == seed[i],
                layout@.to_multiset() == seed.to_multiset(),
                diff@.len() == ctx.analyzer.data.metric_count(),
                t <= iterations,
            decreases iterations - t,
        {
            let k = crate::rng::rng_below(rng, ctx.possible_swaps.len() as u64) as usize;
            let sw = ctx.possible_swaps[k];
            reset_stats(&mut diff);
            ctx.analyzer.swap_diff(&mut diff, &layout, &sw);
            let sc = ctx.evaluator.eval(&diff);
            let mut accept = sc < 0;
            if !accept && t_num > 0 {
                proof {
                    assert((t_den as int) * (iterations as int) <= 65536 * 1000000000 && (
                    t_num as int) * ((iterations - t) as int) <= 65536 * 1000000000 && (
                    t_den as int) * (iterations as int) >= 1) by (nonlinear_arith)
                        requires
                            1 <= t_den <= 65536,
                            t_num <= 65536,
                            t < iterations <= 1000000000,
                    ;
                }
                let total = (t_den as u64) * (iterations as u64);
                let threshold = (t_num as u64) * ((iterations - t) as u64);
                let draw = crate::rng::rng_below(rng, total);
                if draw < threshold {
                    accept = true;
                }
            }
            if accept {
                proof {
                    lemma_swap_step(an, layout@, sw.a as int, sw.b as int, ctx.pin as int, seed);
                }
                layout.swap(&sw);
            }
            t = t + 1;
        }
    }
    finish_run(&ctx.analyzer, &ctx.evaluator, iterations, layout)
}

/// Fixed-schedule simulated annealing with its standard parameters: one
/// million iterations, initial temperature one half, linear cooling to
/// zero.
pub fn simulated_annealing(ctx: &OptimizationContext, rng: &mut rand::rngs::StdRng) -> (r: (
    u32,
    i128,
    Vec<i128>,
    Layout,
))
    requires
        ctx.wf(),
    ensures
        r.0 == 1000000,
        r.3@.len() == ctx.layout@.len(),
        forall|i: int| 0 <= i < ctx.pin ==> r.3@[i] == ctx.layout@[i],
        r.3@.to_multiset() == ctx.layout@.to_multiset(),
        ctx.analyzer.compatible(r.3@),
        r.2@.len() == ctx.analyzer.data.metric_count(),
        forall|m: int|
            0 <= m < r.2@.len() ==> (#[trigger] r.2@[m]) as int == ctx.analyzer.stat(r.3@, m),
        r.1 as int == score_of(ctx.analyzer, ctx.evaluator, r.3@),
{
    sa_run(ctx, rng, 1000000, 1, 2)
}

/// All ordered pairs `(a, b)` of distinct positions with both at or beyond
/// the pin.
fn build_possible_swaps(len: usize, pin: usize) -> (v: Vec<Swap>)
    ensures
        forall|k: int|
            0 <= k < v@.len() ==> {
                &&& pin <= (#[trigger] v@[k]).a < len
                &&& pin <= v@[k].b < len
                &&& v@[k].a != v@[k].b
            },
        forall|x: usize, y: usize|
            pin <= x < len && pin <= y < len && x != y ==> #[trigger] v@.contains(Swap { a: x, b: y }),
{
    let mut v: Vec<Swap> = Vec::new();
    let mut x: usize = pin;
    while x < len
        invariant
            pin <= x,
            forall|k: int|
                0 <= k < v@.len() ==> {
                    &&& pin <= (#[trigger] v@[k]).a < len
                    &&& pin <= v@[k].b < len
                    &&& v@[k].a != v@[k].b
                },
            forall|xx: usize, yy: usize|
                pin <= xx < x && xx < len && pin <= yy < len && xx != yy ==> #[trigger] v@.contains(
                    Swap { a: xx, b: yy },
                ),
        decreases len - x,
    {
        let mut y: usize = pin;
        while y < len
            invariant
                pin <= x < len,
                y >= pin,
                forall|k: int|
                    0 <= k < v@.len() ==> {
                        &&& pin <= (#[trigger] v@[k]).a < len
                        &&& pin <= v@[k].b < len
                        &&& v@[k].a != v@[k].b
                    },
                forall|xx: usize, yy: usize|
                    pin <= xx < x && xx < len && pin <= yy < len && xx != yy ==> #[trigger] v@.contains(
                        Swap { a: xx, b: yy },
                    ),
                forall|yy: usize|
                    pin <= yy < y && yy < len && yy != x ==> #[trigger] v@.contains(Swap { a: x, b: yy }),
            decreases len - y,
        {
            if y != x {
                let ghost old_v = v@;
                v.push(Swap { a: x, b: y });
                proof {
                    assert(v@[v@.len() - 1] == Swap { a: x, b: y });
                    assert forall|xx: usize, yy: usize|
                        pin <= xx < x && xx < len && pin <= yy < len && xx != yy implies #[trigger] v@
                        .contains(Swap { a: xx, b: yy }) by {
                        assert(old_v.contains(Swap { a: xx, b: yy }));
                        let idx = choose|idx: int|
                            0 <= idx < old_v.len() && old_v[idx] == Swap { a: xx, b: yy };
                        assert(v@[idx] == Swap { a: xx, b: yy });
                    }
                    assert forall|yy: usize| pin <= yy < y + 1 && yy < len && yy != x implies #[trigger] v@
                        .contains(Swap { a: x, b: yy }) by {
                        if yy < y {
                            assert(old_v.contains(Swap { a: x, b: yy }));
                            let idx = choose|idx: int|
                                0 <= idx < old_v.len() && old_v[idx] == Swap { a: x, b: yy };
                            assert(v@[idx] == Swap { a: x, b: yy });
                        } else {
                            assert(v@[v@.len() - 1] == Swap { a: x, b: yy });
                        }
                    }
                }
            }
            y = y + 1;
        }
        x = x + 1;
    }
    v
}

} // verus!
