//! One place to run a whole search or sampling pass: the strategy
//! dispatcher, the adaptive-annealing entry, seed-layout construction,
//! and the percentage rows the output formats are built from.

use vstd::prelude::*;

use crate::analyzer::{reset_stats, Analyzer};
use crate::corpus::{percent_of, LayoutTotals};
use crate::ddako;
use crate::layout::Layout;
use crate::rng::shuffle_tail;
use crate::search::{
    greedy_naive_optimization, greedy_neighbor_optimization, score_of, simulated_annealing,
    GenerationStrategy, OptimizationContext,
};
use crate::{EngineError, STAT_BOUND};

verus! {

/// A seed layout: the charset's codes in order, padded with the reserved
/// code 0 up to the keyboard's position count.
///
/// Fails with `IncompatibleLayout` when the charset holds more codes than
/// the keyboard has positions.
pub fn layout_from_charset(core_codes: &Vec<usize>, position_count: usize) -> (r: Result<
    Layout,
    EngineError,
>)
    ensures
        r is Ok <==> core_codes@.len() <= position_count,
        r == Result::<Layout, EngineError>::Err(EngineError::IncompatibleLayout)
            <==> core_codes@.len() > position_count,
        r is Ok ==> {
            &&& r->Ok_0@.len() == position_count
            &&& forall|p: int|
                0 <= p < core_codes@.len() ==> r->Ok_0@[p] == core_codes@[p]
            &&& forall|p: int|
                core_codes@.len() <= p < position_count ==> r->Ok_0@[p] == 0
        },
{
    if core_codes.len() > position_count {
        return Err(EngineError::IncompatibleLayout);
    }
    let mut codes: Vec<usize> = Vec::new();
    let mut p: usize = 0;
    while p < core_codes.len()
        invariant
            p <= core_codes@.len(),
            codes@ == core_codes@.subrange(0, p as int),
        decreases core_codes@.len() - p,
    {
        codes.push(core_codes[p]);
        proof {
            assert(codes@ =~= core_codes@.subrange(0, p + 1));
        }
        p = p + 1;
    }
    proof {
        assert(core_codes@.subrange(0, core_codes@.len() as int) =~= core_codes@);
    }
    while codes.len() < position_count
        invariant
            core_codes@.len() <= codes@.len() <= position_count,
            forall|q: int| 0 <= q < core_codes@.len() ==> codes@[q] == core_codes@[q],
            forall|q: int| core_codes@.len() <= q < codes@.len() ==> codes@[q] == 0,
        decreases position_count - codes@.len(),
    {
        codes.push(0);
    }
    Ok(Layout(codes))
}

/// The adaptive-annealing driver over a shared context: shuffles the
/// unpinned tail of a clone of the seed and runs the calibrated schedule
/// with its default tuning — cooling rate 0.9, cooling interval 5 inside
/// [1, 10], no iteration bound.
pub fn ddako_simulated_annealing(ctx: &OptimizationContext, rng: &mut rand::rngs::StdRng) -> (r: (
    u32,
    i128,
    Vec<i128>,
    Layout,
))
    requires
        ctx.wf(),
    ensures
        r.3@.len() == ctx.layout@.len(),
        forall|i: int| 0 <= i < ctx.pin ==> r.3@[i] == ctx.layout@[i],
        r.3@.to_multiset() == ctx.layout@.to_multiset(),
        ctx.analyzer.compatible(r.3@),
        r.2@.len() == ctx.analyzer.data.metric_count(),
        forall|m: int|
            0 <= m < r.2@.len() ==> (#[trigger] r.2@[m]) as int == ctx.analyzer.stat(r.3@, m),
        r.1 as int == score_of(ctx.analyzer, ctx.evaluator, r.3@),
{
    let ghost an = ctx.analyzer;
    let ghost seed = ctx.layout@;
    let mut shuffled = ctx.layout.duplicate();
    shuffle_tail(&mut shuffled, ctx.pin, rng);
    proof {
        assert forall|p: int| 0 <= p < shuffled@.len() implies (#[trigger] shuffled@[p])
            < an.corpus.n() by {
            assert(seed.contains(shuffled@[p]));
            let q = choose|q: int| 0 <= q < seed.len() && seed[q] == shuffled@[p];
            assert(seed[q] < an.corpus.n());
        }
    }
    let layout_size = shuffled.0.len();
    let sa = ddako::SimulatedAnnealing::new(
        &ctx.possible_swaps,
        &shuffled,
        &ctx.analyzer,
        &ctx.evaluator,
        900,
        5000,
        1000,
        10000,
        None,
    );
    let r = sa.optimize(layout_size, rng);
    proof {
        assert forall|i: int| 0 <= i < ctx.pin implies r.3@[i] == ctx.layout@[i] by {
            assert forall|k: int| 0 <= k < ctx.possible_swaps@.len() implies (
            #[trigger] ctx.possible_swaps@[k]).a != i && ctx.possible_swaps@[k].b != i by {
                assert(ctx.possible_swaps@[k].a >= ctx.pin);
            }
            assert(ddako::avoids(ctx.possible_swaps@, i));
            assert(r.3@[i] == shuffled@[i]);
        }
    }
    r
}

/// Runs one search with the chosen strategy and reports `(iterations,
/// score, stats recomputed at the final layout, final layout)`. Whatever
/// the strategy: the pinned prefix never moves, the result is a
/// permutation of the seed, and score and stats are exact for the
/// reported layout.
pub fn run_strategy(
    ctx: &OptimizationContext,
    strategy: &GenerationStrategy,
    rng: &mut rand::rngs::StdRng,
) -> (r: (u32, i128, Vec<i128>, Layout))
    requires
        ctx.wf(),
    ensures
        r.3@.len() == ctx.layout@.len(),
        forall|i: int| 0 <= i < ctx.pin ==> r.3@[i] == ctx.layout@[i],
        r.3@.to_multiset() == ctx.layout@.to_multiset(),
        ctx.analyzer.compatible(r.3@),
        r.2@.len() == ctx.analyzer.data.metric_count(),
        forall|m: int|
            0 <= m < r.2@.len() ==> (#[trigger] r.2@[m]) as int == ctx.analyzer.stat(r.3@, m),
        r.1 as int == score_of(ctx.analyzer, ctx.evaluator, r.3@),
{
    match strategy {
        GenerationStrategy::GreedyDeterministic => greedy_neighbor_optimization(ctx, rng),
        GenerationStrategy::GreedyNaive => greedy_naive_optimization(ctx, rng),
        GenerationStrategy::SimulatedAnnealing => simulated_annealing(ctx, rng),
        GenerationStrategy::DDAKOSimulatedAnnealing => ddako_simulated_annealing(ctx, rng),
    }
}

/// Converts the selected metrics' stats to thousandths of a percent of
/// their ngram kinds' totals, in selection order.
pub fn percent_row(
    data: &crate::metric::MetricData,
    totals: &LayoutTotals,
    stats: &Vec<i128>,
    metrics: &Vec<usize>,
) -> (row: Vec<i128>)
    requires
        stats@.len() == data.metric_count(),
        forall|k: int| 0 <= k < metrics@.len() ==> (#[trigger] metrics@[k]) < data.metric_count(),
        forall|m: int|
            0 <= m < stats@.len() ==> -STAT_BOUND <= (#[trigger] stats@[m]) <= STAT_BOUND,
    ensures
        row@.len() == metrics@.len(),
        forall|k: int|
            0 <= k < row@.len() ==> (#[trigger] row@[k]) as int == percent_of(
                totals.total_of(data.kinds()[metrics@[k] as int]),
                stats@[metrics@[k] as int] as int,
            ),
{
    let mut row: Vec<i128> = Vec::new();
    let mut k: usize = 0;
    while k < metrics.len()
        invariant
            stats@.len() == data.metric_count(),
            forall|kk: int|
                0 <= kk < metrics@.len() ==> (#[trigger] metrics@[kk]) < data.metric_count(),
            forall|m: int|
                0 <= m < stats@.len() ==> -STAT_BOUND <= (#[trigger] stats@[m]) <= STAT_BOUND,
            k <= metrics@.len(),
            row@.len() == k,
            forall|kk: int|
                0 <= kk < k ==> (#[trigger] row@[kk]) as int == percent_of(
                    totals.total_of(data.kinds()[metrics@[kk] as int]),
                    stats@[metrics@[kk] as int] as int,
                ),
        decreases metrics@.len() - k,
    {
        let m = metrics[k];
        let kind = data.metrics[m].kind;
        proof {
            assert(data.kinds()[m as int] == kind);
        }
        let pc = totals.percentage(stats[m], kind);
        row.push(pc);
        k = k + 1;
    }
    row
}

/// One sampling pass of the random-assignment distribution: shuffle the
/// whole layout uniformly, recompute its stats exactly, and report the
/// selected metrics as thousandths of a percent. The layout stays a
/// permutation of what it was, and `stats` holds exactly the shuffled
/// layout's stats.
pub fn collect_sample(
    analyzer: &Analyzer,
    totals: &LayoutTotals,
    metrics: &Vec<usize>,
    layout: &mut Layout,
    stats: &mut Vec<i128>,
    rng: &mut rand::rngs::StdRng,
) -> (row: Vec<i128>)
    requires
        analyzer.wf(),
        analyzer.compatible(old(layout)@),
        old(stats)@.len() == analyzer.data.metric_count(),
        forall|k: int|
            0 <= k < metrics@.len() ==> (#[trigger] metrics@[k]) < analyzer.data.metric_count(),
    ensures
        final(layout)@.len() == old(layout)@.len(),
        final(layout)@.to_multiset() == old(layout)@.to_multiset(),
        analyzer.compatible(final(layout)@),
        final(stats)@.len() == analyzer.data.metric_count(),
        forall|m: int|
            0 <= m < final(stats)@.len() ==> (#[trigger] final(stats)@[m]) as int == analyzer.stat(
                final(layout)@,
                m,
            ),
        row@.len() == metrics@.len(),
        forall|k: int|
            0 <= k < row@.len() ==> (#[trigger] row@[k]) as int == percent_of(
                totals.total_of(analyzer.data.kinds()[metrics@[k] as int]),
                analyzer.stat(final(layout)@, metrics@[k] as int),
            ),
{
    let ghost seed = layout@;
    shuffle_tail(layout, 0, rng);
    proof {
        assert forall|p: int| 0 <= p < layout@.len() implies (#[trigger] layout@[p])
            < analyzer.corpus.n() by {
            assert(seed.contains(layout@[p]));
            let q = choose|q: int| 0 <= q < seed.len() && seed[q] == layout@[p];
            assert(seed[q] < analyzer.corpus.n());
        }
    }
    reset_stats(stats);
    analyzer.recalc_stats(stats, layout);
    percent_row(&analyzer.data, totals, stats, metrics)
}

} // verus!
