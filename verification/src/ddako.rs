//! Adaptive simulated annealing with calibrated initial temperature and a
//! self-adjusting cooling interval.
//!
//! The driver keeps a current and a best-ever layout. Every move is
//! evaluated by the slow, drift-free path — apply the swap, recompute the
//! full stats, undo the swap — and accepted either on strict improvement
//! or with the Metropolis chance `exp(-delta / T)`, taken by an exact Q32
//! integer draw. The initial temperature is calibrated so that roughly
//! the target fraction of worsening moves would be accepted; runs stop
//! after a coupon-collector bound of consecutive non-improving moves.

use vstd::prelude::*;

use crate::analyzer::{reset_stats, zero_stats, Analyzer};
use crate::evaluator::Evaluator;
use crate::fixedpoint::{
    exp_neg_q32, exp_neg_spec, log2_q32, ratio_q32, ratio_spec, EPS_Q32, GAMMA_Q32, HALF_Q32,
    LN2_Q32, LN_RHO_MAG_Q32, ONE_Q32, RHO_Q32,
};
use crate::layout::{apply_swap, Layout, Swap};
use crate::search::{lemma_score_bound, score_of};
use crate::{MAX_POSITIONS, SCORE_BOUND};

verus! {

/// The temperature cap: adaptive updates saturate here instead of
/// overflowing.
pub const TEMP_CAP: i128 = 38685626227668133590597632;

/// No swap of the list touches position `p`.
pub open spec fn avoids(swaps: Seq<Swap>, p: int) -> bool {
    forall|k: int| 0 <= k < swaps.len() ==> (#[trigger] swaps[k]).a != p && swaps[k].b != p
}

/// The adaptive annealing driver's state and tuning parameters; cooling
/// rates and intervals are carried in thousandths.
pub struct SimulatedAnnealing<'a> {
    pub possible_swaps: Vec<Swap>,
    pub layout: Layout,
    pub analyzer: &'a Analyzer,
    pub stats: Vec<i128>,
    pub diff: Vec<i128>,
    pub evaluator: &'a Evaluator,
    pub cooling_rate_milli: u32,
    pub cooling_interval_milli: u32,
    pub cooling_interval_min_milli: u32,
    pub cooling_interval_max_milli: u32,
    pub max_iterations: Option<u32>,
    pub fitness: i128,
    pub temp: Option<i128>,
    pub stopping_point: Option<usize>,
}

impl<'a> SimulatedAnnealing<'a> {
    /// The driver's state is consistent: engine and evaluator are well
    /// formed, the swap list fits the layout, the fitness is the current
    /// layout's exact score, and the tuning parameters are in range.
    pub open spec fn wf(self) -> bool {
        &&& self.analyzer.wf()
        &&& self.analyzer.compatible(self.layout@)
        &&& self.evaluator.wf()
        &&& self.evaluator.indices_ok(self.analyzer.data.metric_count())
        &&& forall|k: int|
            0 <= k < self.possible_swaps@.len() ==> ((#[trigger] self.possible_swaps@[k]).a
                < self.layout@.len() && self.possible_swaps@[k].b < self.layout@.len()
                && self.possible_swaps@[k].a != self.possible_swaps@[k].b)
        &&& self.stats@.len() == self.analyzer.data.metric_count()
        &&& self.diff@.len() == self.analyzer.data.metric_count()
        &&& self.fitness as int == score_of(*self.analyzer, *self.evaluator, self.layout@)
        &&& -SCORE_BOUND <= self.fitness <= SCORE_BOUND
        &&& 1 <= self.cooling_rate_milli <= 1000
        &&& 1000 <= self.cooling_interval_min_milli
        &&& self.cooling_interval_min_milli <= self.cooling_interval_milli
        &&& self.cooling_interval_milli <= self.cooling_interval_max_milli
        &&& self.cooling_interval_max_milli <= 1000000
        &&& (self.temp is Some ==> 1 <= self.temp->0 <= TEMP_CAP)
    }

    /// The seed layout the driver starts from.
    pub open spec fn seed(self) -> Seq<usize> {
        self.layout@
    }

    /// The swap list the driver draws from.
    pub open spec fn swaps(self) -> Seq<Swap> {
        self.possible_swaps@
    }

    /// Builds a driver over a swap list, a seed layout, the engine and an
    /// evaluator, computing the seed's exact stats and score. Temperature
    /// and stopping point stay unset until `optimize` derives them.
    pub fn new(
        possible_swaps: &Vec<Swap>,
        layout: &Layout,
        analyzer: &'a Analyzer,
        evaluator: &'a Evaluator,
        cooling_rate_milli: u32,
        cooling_interval_milli: u32,
        cooling_interval_min_milli: u32,
        cooling_interval_max_milli: u32,
        max_iterations: Option<u32>,
    ) -> (r: SimulatedAnnealing<'a>)
        requires
            analyzer.wf(),
            analyzer.compatible(layout@),
            evaluator.wf(),
            evaluator.indices_ok(analyzer.data.metric_count()),
            forall|k: int|
                0 <= k < possible_swaps@.len() ==> ((#[trigger] possible_swaps@[k]).a
                    < layout@.len() && possible_swaps@[k].b < layout@.len()
                    && possible_swaps@[k].a != possible_swaps@[k].b),
            1 <= cooling_rate_milli <= 1000,
            1000 <= cooling_interval_min_milli,
            cooling_interval_min_milli <= cooling_interval_milli,
            cooling_interval_milli <= cooling_interval_max_milli,
            cooling_interval_max_milli <= 1000000,
        ensures
            r.wf(),
            r.seed() == layout@,
            r.swaps() == possible_swaps@,
            r.analyzer == analyzer,
            r.evaluator == evaluator,
            r.fitness as int == score_of(*analyzer, *evaluator, layout@),
            r.max_iterations == max_iterations,
            r.temp is None,
            r.stopping_point is None,
            r.cooling_rate_milli == cooling_rate_milli,
            r.cooling_interval_milli == cooling_interval_milli,
            r.cooling_interval_min_milli == cooling_interval_min_milli,
            r.cooling_interval_max_milli == cooling_interval_max_milli,
            forall|m: int| 0 <= m < r.diff@.len() ==> (#[trigger] r.diff@[m]) == 0,
            forall|m: int|
                0 <= m < r.stats@.len() ==> (#[trigger] r.stats@[m]) as int == analyzer.stat(
                    layout@,
                    m,
                ),
    {
        let stats = analyzer.calc_stats(layout);
        let initial_fitness = evaluator.eval(&stats);
        let len = stats.len();
        let diff = zero_stats(len);
        let mut swaps_copy: Vec<Swap> = Vec::new();
        let mut k: usize = 0;
        while k < possible_swaps.len()
            invariant
                k <= possible_swaps@.len(),
                swaps_copy@ == possible_swaps@.subrange(0, k as int),
            decreases possible_swaps@.len() - k,
        {
            swaps_copy.push(possible_swaps[k]);
            proof {
                assert(swaps_copy@ =~= possible_swaps@.subrange(0, k + 1));
            }
            k = k + 1;
        }
        proof {
            assert(possible_swaps@.subrange(0, possible_swaps@.len() as int) =~= possible_swaps@);
            assert(crate::evaluator::int_view(stats@) =~= analyzer.stats_spec(layout@));
            lemma_score_bound(*analyzer, *evaluator, layout@);
        }
        SimulatedAnnealing {
            possible_swaps: swaps_copy,
            layout: layout.duplicate(),
            analyzer,
            stats,
            diff,
            evaluator,
            cooling_rate_milli,
            cooling_interval_milli,
            cooling_interval_min_milli,
            cooling_interval_max_milli,
            max_iterations,
            fitness: initial_fitness,
            temp: None,
            stopping_point: None,
        }
    }

    /// The coupon-collector stopping bound: the ceiling of
    /// `n * (ln n + gamma) + 1/2` consecutive non-improving moves justify
    /// declaring convergence.
    pub fn get_stopping_point(&self, layout_size: usize) -> (s: usize)
        requires
            layout_size <= MAX_POSITIONS,
        ensures
            s as int == stopping_point_spec(layout_size as int),
            s <= 1000000,
    {
        stopping_point_exec(layout_size)
    }
}

impl<'a> SimulatedAnnealing<'a> {
    /// Runs the adaptive schedule and returns `(outer iterations, best
    /// score, stats of the best layout recomputed from scratch, best
    /// layout)`.
    ///
    /// Derives the calibrated temperature and the stopping point if they
    /// are unset, then loops: `layout_size` random moves per outer
    /// iteration, each evaluated by the slow path; improving moves reset
    /// the non-improvement counter, probabilistically accepted worsening
    /// moves are left out of the acceptance window — a deliberate
    /// asymmetry the adaptation reads — and rejections grow the counter
    /// until it reaches the stopping point. Between outer iterations the
    /// temperature cools and the cooling interval stretches or shrinks
    /// with the observed acceptance rate. Without a maximum iteration
    /// count the walk runs until convergence, bounded only by the
    /// counter's range. Positions no listed swap touches keep the seed's
    /// codes, and the result is a permutation of the seed.
    pub fn optimize(self, layout_size: usize, rng: &mut rand::rngs::StdRng) -> (r: (
        u32,
        i128,
        Vec<i128>,
        Layout,
    ))
        requires
            self.wf(),
            layout_size <= MAX_POSITIONS,
        ensures
            r.3@.len() == self.seed().len(),
            forall|p: int|
                0 <= p < r.3@.len() && avoids(self.swaps(), p) ==> r.3@[p] == self.seed()[p],
            r.3@.to_multiset() == self.seed().to_multiset(),
            self.analyzer.compatible(r.3@),
            r.2@.len() == self.analyzer.data.metric_count(),
            forall|m: int|
                0 <= m < r.2@.len() ==> (#[trigger] r.2@[m]) as int == self.analyzer.stat(
                    r.3@,
                    m,
                ),
            r.1 as int == score_of(*self.analyzer, *self.evaluator, r.3@),
            r.1 <= self.fitness,
            self.max_iterations is Some ==> r.0 <= self.max_iterations->0,
    {
        let SimulatedAnnealing {
            possible_swaps,
            mut layout,
            analyzer,
            mut stats,
            mut diff,
            evaluator,
            cooling_rate_milli,
            mut cooling_interval_milli,
            cooling_interval_min_milli,
            cooling_interval_max_milli,
            max_iterations,
            mut fitness,
            temp,
            stopping_point,
        } = self;
        let ghost init_fitness = fitness;
        let ghost seed = layout@;
        let ghost an = *analyzer;
        let ghost ev = *evaluator;
        let mut temp_val: i128 = match temp {
            Some(t) => t,
            None => calibrate_temperature(
                analyzer,
                evaluator,
                &possible_swaps,
                &mut layout,
                &mut diff,
                fitness,
            ),
        };
        let sp: usize = match stopping_point {
            Some(s) => s,
            None => stopping_point_exec(layout_size),
        };
        let cap: u32 = match max_iterations {
            Some(m) => m,
            None => 4294967295,
        };
        let mut best_layout = layout.duplicate();
        let mut best_fitness = fitness;
        let mut stays: usize = 0;
        let mut iteration: u32 = 0;
        let mut last_adjustment: u32 = 0;
        let mut last_improvement: u32 = 0;
        let mut recent_acceptances: Vec<bool> = Vec::new();
        if possible_swaps.len() >= 1 {
            while stays < sp && iteration < cap
                invariant
                    an == *analyzer,
                    ev == *evaluator,
                    analyzer.wf(),
                    evaluator.wf(),
                    evaluator.indices_ok(analyzer.data.metric_count()),
                    possible_swaps@.len() >= 1,
                    forall|k: int|
                        0 <= k < possible_swaps@.len() ==> ((#[trigger] possible_swaps@[k]).a
                            < layout@.len() && possible_swaps@[k].b < layout@.len()
                            && possible_swaps@[k].a != possible_swaps@[k].b),
                    layout@.len() == seed.len(),
                    analyzer.compatible(layout@),
                    forall|p: int|
                        0 <= p < layout@.len() && avoids(possible_swaps@, p) ==> layout@[p]
                            == seed[p],
                    layout@.to_multiset() == seed.to_multiset(),
                    best_layout@.len() == seed.len(),
                    analyzer.compatible(best_layout@),
                    forall|p: int|
                        0 <= p < best_layout@.len() && avoids(possible_swaps@, p)
                            ==> best_layout@[p] == seed[p],
                    best_layout@.to_multiset() == seed.to_multiset(),
                    stats@.len() == analyzer.data.metric_count(),
                    diff@.len() == analyzer.data.metric_count(),
                    fitness as int == score_of(an, ev, layout@),
                    best_fitness as int == score_of(an, ev, best_layout@),
                    best_fitness <= init_fitness,
                    -SCORE_BOUND <= fitness <= SCORE_BOUND,
                    -SCORE_BOUND <= best_fitness <= SCORE_BOUND,
                    1 <= temp_val <= TEMP_CAP,
                    1 <= cooling_rate_milli <= 1000,
                    1000 <= cooling_interval_min_milli,
                    cooling_interval_min_milli <= cooling_interval_milli,
                    cooling_interval_milli <= cooling_interval_max_milli,
                    cooling_interval_max_milli <= 1000000,
                    last_improvement <= iteration,
                    last_adjustment <= iteration,
                    iteration <= cap,
                    recent_acceptances@.len() <= 20,
                decreases cap - iteration,
            {
                let mut mv: usize = 0;
                while mv < layout_size
                    invariant
                        an == *analyzer,
                        ev == *evaluator,
                        analyzer.wf(),
                        evaluator.wf(),
                        evaluator.indices_ok(analyzer.data.metric_count()),
                        possible_swaps@.len() >= 1,
                        forall|k: int|
                            0 <= k < possible_swaps@.len() ==> ((#[trigger] possible_swaps@[k]).a
                                < layout@.len() && possible_swaps@[k].b < layout@.len()
                                && possible_swaps@[k].a != possible_swaps@[k].b),
                        layout@.len() == seed.len(),
                        analyzer.compatible(layout@),
                        forall|p: int|
                            0 <= p < layout@.len() && avoids(possible_swaps@, p) ==> layout@[p]
                                == seed[p],
                        layout@.to_multiset() == seed.to_multiset(),
                        best_layout@.len() == seed.len(),
                        analyzer.compatible(best_layout@),
                        forall|p: int|
                            0 <= p < best_layout@.len() && avoids(possible_swaps@, p)
                                ==> best_layout@[p] == seed[p],
                        best_layout@.to_multiset() == seed.to_multiset(),
                        stats@.len() == analyzer.data.metric_count(),
                        diff@.len() == analyzer.data.metric_count(),
                        fitness as int == score_of(an, ev, layout@),
                        best_fitness as int == score_of(an, ev, best_layout@),
                        best_fitness <= init_fitness,
                        -SCORE_BOUND <= fitness <= SCORE_BOUND,
                        -SCORE_BOUND <= best_fitness <= SCORE_BOUND,
                        1 <= temp_val <= TEMP_CAP,
                        iteration < cap,
                        last_improvement <= iteration,
                        recent_acceptances@.len() <= 20,
                        mv <= layout_size,
                    decreases layout_size - mv,
                {
                    let k = crate::rng::rng_below(rng, possible_swaps.len() as u64) as usize;
                    let new_swap = possible_swaps[k];
                    let new_fitness = evaluate_swap_slowly(
                        analyzer,
                        evaluator,
                        &mut layout,
                        &mut diff,
                        &new_swap,
                    );
                    let delta = new_fitness - fitness;
                    let draw: u64 = if delta >= 0 {
                        crate::rng::rng_below(rng, 4294967296)
                    } else {
                        0
                    };
                    let step = accept_move(delta, temp_val, stays, draw);
                    let accepted = step.0;
                    stays = step.1;
                    if let Some(entry) = step.2 {
                        recent_acceptances.push(entry);
                    }
                    if recent_acceptances.len() > 20 {
                        recent_acceptances.remove(0);
                    }
                    if accepted {
                        let ghost before = layout@;
                        proof {
                            crate::layout::lemma_swap_multiset(
                                before,
                                new_swap.a as int,
                                new_swap.b as int,
                            );
                        }
                        layout.swap(&new_swap);
                        proof {
                            let lp = apply_swap(before, new_swap.a as int, new_swap.b as int);
                            assert forall|p: int| 0 <= p < lp.len() implies (#[trigger] lp[p])
                                < analyzer.corpus.n() by {
                                if p == new_swap.b {
                                    assert(lp[p] == before[new_swap.a as int]);
                                } else if p == new_swap.a {
                                    assert(lp[p] == before[new_swap.b as int]);
                                } else {
                                    assert(lp[p] == before[p]);
                                }
                            }
                            assert forall|p: int|
                                0 <= p < lp.len() && avoids(possible_swaps@, p) implies lp[p]
                                == seed[p] by {
                                assert(possible_swaps@[k as int].a != p && possible_swaps@[
                                k as int].b != p);
                                assert(lp[p] == before[p]);
                            }
                        }
                        reset_stats(&mut stats);
                        analyzer.recalc_stats(&mut stats, &layout);
                        fitness = new_fitness;
                        if fitness < best_fitness {
                            last_improvement = iteration;
                            best_layout = layout.duplicate();
                            best_fitness = fitness;
                        }
                    }
                    mv = mv + 1;
                }
                let true_count = count_true(&recent_acceptances);
                let time_since_improvement = iteration - last_improvement;
                let floor_interval = cooling_interval_milli / 1000;
                if iteration > 0 && (iteration - last_adjustment) % floor_interval == 0 {
                    last_adjustment = iteration;
                    proof {
                        assert(temp_val * (cooling_rate_milli as i128) <= TEMP_CAP * 1000
                            && 0 <= temp_val * (cooling_rate_milli as i128)) by (nonlinear_arith)
                            requires
                                1 <= temp_val <= TEMP_CAP,
                                1 <= cooling_rate_milli <= 1000,
                        ;
                        assert((temp_val * (cooling_rate_milli as i128)) / 1000 <= TEMP_CAP)
                            by (nonlinear_arith)
                            requires
                                0 <= temp_val * (cooling_rate_milli as i128) <= TEMP_CAP * 1000,
                        ;
                    }
                    let mut cooled: i128 = (temp_val * (cooling_rate_milli as i128)) / 1000;
                    if cooled < 1 {
                        cooled = 1;
                    }
                    temp_val = cooled;
                    let lengthen = 10 * true_count > recent_acceptances.len() || (
                    cooling_interval_milli as u64) > 1000 * (time_since_improvement as u64);
                    if lengthen {
                        let grown = (cooling_interval_milli * 11) / 10;
                        cooling_interval_milli = if grown > cooling_interval_max_milli {
                            cooling_interval_max_milli
                        } else if grown < cooling_interval_min_milli {
                            cooling_interval_min_milli
                        } else {
                            grown
                        };
                    } else {
                        let shrunk = (cooling_interval_milli * 9) / 10;
                        cooling_interval_milli = if shrunk < cooling_interval_min_milli {
                            cooling_interval_min_milli
                        } else if shrunk > cooling_interval_max_milli {
                            cooling_interval_max_milli
                        } else {
                            shrunk
                        };
                    }
                }
                iteration = iteration + 1;
            }
        }
        reset_stats(&mut stats);
        analyzer.recalc_stats(&mut stats, &best_layout);
        proof {
            assert(crate::evaluator::int_view(stats@) =~= analyzer.stats_spec(best_layout@));
        }
        (iteration, best_fitness, stats, best_layout)
    }
}

/// The stopping-bound arithmetic itself.
fn stopping_point_exec(layout_size: usize) -> (s: usize)
    requires
        layout_size <= MAX_POSITIONS,
    ensures
        s as int == stopping_point_spec(layout_size as int),
        s <= 1000000,
{
    let n: u64 = if layout_size == 0 {
        1
    } else {
        layout_size as u64
    };
    let l2 = log2_q32(n);
    let ln_n: u64 = (((l2 as u128) * (LN2_Q32 as u128)) / (ONE_Q32 as u128)) as u64;
    proof {
        assert((l2 as int) * (LN2_Q32 as int) < (40 * 4294967296) * (4294967296))
            by (nonlinear_arith)
            requires
                0 <= (l2 as int) < 40 * 4294967296,
                LN2_Q32 < 4294967296,
        ;
        assert(((l2 as int) * (LN2_Q32 as int)) / (ONE_Q32 as int) < 40 * 4294967296 && 0 <= ((
        l2 as int) * (LN2_Q32 as int)) / (ONE_Q32 as int)) by (nonlinear_arith)
            requires
                0 <= (l2 as int) * (LN2_Q32 as int) < (40 * 4294967296) * 4294967296,
                ONE_Q32 == 4294967296,
        ;
        assert((n as int) * ((ln_n as int) + (GAMMA_Q32 as int)) <= 4096 * (41 * 4294967296))
            by (nonlinear_arith)
            requires
                1 <= (n as int) <= 4096,
                0 <= (ln_n as int) < 40 * 4294967296,
                GAMMA_Q32 < 4294967296,
        ;
        assert(0 <= (n as int) * ((ln_n as int) + (GAMMA_Q32 as int))) by (nonlinear_arith)
            requires
                1 <= (n as int),
                0 <= (ln_n as int),
        ;
    }
    let v: u128 = (n as u128) * ((ln_n as u128) + (GAMMA_Q32 as u128)) + (HALF_Q32 as u128);
    let s128: u128 = (v + (ONE_Q32 as u128) - 1) / (ONE_Q32 as u128);
    proof {
        assert(s128 as int <= 1000000) by (nonlinear_arith)
            requires
                0 <= (v as int) <= 730000000000000,
                (s128 as int) == ((v as int) + 4294967296 - 1) / 4294967296,
        ;
    }
    s128 as usize
}

/// How many entries of a window record an acceptance.
pub open spec fn true_count(s: Seq<bool>) -> int
    decreases s.len(),
{
    if s.len() == 0 {
        0
    } else {
        true_count(s.drop_last()) + (if s.last() {
            1int
        } else {
            0int
        })
    }
}

/// Counts the window entries that record an acceptance: exactly
/// `true_count` of the window, which the cooling adaptation's
/// acceptance-rate test reads.
fn count_true(v: &Vec<bool>) -> (c: usize)
    ensures
        c as int == true_count(v@),
        c <= v@.len(),
{
    let mut c: usize = 0;
    let mut k: usize = 0;
    while k < v.len()
        invariant
            k <= v@.len(),
            c <= k,
            c as int == true_count(v@.subrange(0, k as int)),
        decreases v@.len() - k,
    {
        proof {
            assert(v@.subrange(0, k + 1).drop_last() =~= v@.subrange(0, k as int));
            assert(v@.subrange(0, k + 1).last() == v@[k as int]);
        }
        if v[k] {
            c = c + 1;
        }
        k = k + 1;
    }
    proof {
        assert(v@.subrange(0, v@.len() as int) =~= v@);
    }
    c
}

/// The adaptive acceptance rule for one drawn move: an improving delta
/// is always accepted, recorded in the window and resets the
/// non-improvement counter; a worsening delta is accepted exactly when
/// the drawn chance lies below the Q32 Metropolis probability
/// `exp(-delta / temp)`, stepping the counter down — such an acceptance
/// leaves no window entry, the deliberate asymmetry the adaptation
/// reads — and is otherwise rejected, recorded, stepping the counter up.
/// The counter saturates at its type's range.
pub fn accept_move(delta: i128, temp: i128, stays: usize, draw: u64) -> (r: (bool, usize, Option<
    bool,
>))
    requires
        1 <= temp,
    ensures
        delta < 0 ==> (r.0 && r.1 == 0 && r.2 == Some(true)),
        delta >= 0 && (draw as int) < exp_neg_spec(ratio_spec(delta as int, temp as int)) ==> (r.0
            && r.1 as int == (if stays >= 1 {
            stays - 1
        } else {
            0int
        }) && r.2 is None),
        delta >= 0 && (draw as int) >= exp_neg_spec(ratio_spec(delta as int, temp as int)) ==> (
        !r.0 && r.1 as int == (if stays < usize::MAX {
            stays + 1
        } else {
            stays as int
        }) && r.2 == Some(false)),
{
    if delta < 0 {
        (true, 0, Some(true))
    } else {
        let x = ratio_q32(delta, temp);
        let chance = exp_neg_q32(x);
        if draw < chance {
            (true, if stays >= 1 {
                stays - 1
            } else {
                0
            }, None)
        } else {
            (false, if stays < usize::MAX {
                stays + 1
            } else {
                stays
            }, Some(false))
        }
    }
}

/// Scores the layout as it would read after the swap, by the slow,
/// drift-free path: apply the swap, recompute the full stats into the
/// scratch buffer, undo the swap. The layout comes back exactly as it
/// was.
fn evaluate_swap_slowly(
    analyzer: &Analyzer,
    evaluator: &Evaluator,
    layout: &mut Layout,
    diff: &mut Vec<i128>,
    swap: &Swap,
) -> (score: i128)
    requires
        analyzer.wf(),
        analyzer.compatible(old(layout)@),
        evaluator.wf(),
        evaluator.indices_ok(analyzer.data.metric_count()),
        swap.wf(old(layout)@.len() as int),
        old(diff)@.len() == analyzer.data.metric_count(),
    ensures
        final(layout)@ == old(layout)@,
        final(diff)@.len() == old(diff)@.len(),
        score as int == score_of(
            *analyzer,
            *evaluator,
            apply_swap(old(layout)@, swap.a as int, swap.b as int),
        ),
        -SCORE_BOUND <= score <= SCORE_BOUND,
{
    let ghost l0 = layout@;
    let ghost ai = swap.a as int;
    let ghost bi = swap.b as int;
    let ghost lp = apply_swap(l0, ai, bi);
    proof {
        assert forall|p: int| 0 <= p < lp.len() implies (#[trigger] lp[p])
            < analyzer.corpus.n() by {
            if p == bi {
                assert(lp[p] == l0[ai]);
            } else if p == ai {
                assert(lp[p] == l0[bi]);
            } else {
                assert(lp[p] == l0[p]);
            }
        }
    }
    layout.swap(swap);
    reset_stats(diff);
    analyzer.recalc_stats(diff, layout);
    let score = evaluator.eval(diff);
    let reverse_swap = Swap { a: swap.b, b: swap.a };
    layout.swap(&reverse_swap);
    proof {
        assert(apply_swap(lp, bi, ai) =~= apply_swap(lp, ai, bi));
        crate::layout::lemma_swap_involution(l0, ai, bi);
        assert(crate::evaluator::int_view(diff@) =~= analyzer.stats_spec(lp));
        lemma_score_bound(*analyzer, *evaluator, lp);
    }
    score
}

/// The sweep of one calibration round over the first `k` swaps: the Q32
/// sum of the Metropolis chances `exp(-delta / tn)` of the strictly
/// worsening moves, and how many there were. A move is worsening when its
/// exact score delta exceeds the thousandth-of-a-point threshold, scaled
/// by the evaluator's weight sum because scores are numerators over it.
pub open spec fn calib_sweep(
    an: Analyzer,
    ev: Evaluator,
    l: Seq<usize>,
    swaps: Seq<Swap>,
    fitness: int,
    tn: int,
    k: int,
) -> (int, int)
    decreases k,
{
    if k <= 0 {
        (0int, 0int)
    } else {
        let prev = calib_sweep(an, ev, l, swaps, fitness, tn, k - 1);
        let delta = score_of(an, ev, apply_swap(l, swaps[k - 1].a as int, swaps[k - 1].b as int))
            - fitness;
        if 1000 * delta > ev.weight_sum {
            (prev.0 + exp_neg_spec(ratio_spec(delta, tn)), prev.1 + 1)
        } else {
            prev
        }
    }
}

/// One calibration update of the state `(tn, p)`: a full sweep, then
/// either the averaged chance and the log-ratio temperature update — the
/// magnitude of `ln p` over the magnitude of `ln` of the target ratio —
/// or, when no worsening move exists, a doubling with the chance left
/// stale. The temperature saturates inside `[1, TEMP_CAP]`.
pub open spec fn calib_update(
    an: Analyzer,
    ev: Evaluator,
    l: Seq<usize>,
    swaps: Seq<Swap>,
    fitness: int,
    tn: int,
    p: int,
) -> (int, int) {
    let sweep = calib_sweep(an, ev, l, swaps, fitness, tn, swaps.len() as int);
    if sweep.1 >= 1 {
        let p2 = sweep.0 / sweep.1;
        let pp = if p2 == 0 {
            1int
        } else {
            p2
        };
        let lg = log2_q32_spec_of(pp);
        let lgc = if lg > 32 * (ONE_Q32 as int) {
            32 * (ONE_Q32 as int)
        } else {
            lg
        };
        let mag = 32 * (ONE_Q32 as int) - lgc;
        let ln_mag = (mag * (LN2_Q32 as int)) / (ONE_Q32 as int);
        let t2 = (tn * ln_mag) / (LN_RHO_MAG_Q32 as int);
        let t3 = if t2 < 1 {
            1int
        } else if t2 > TEMP_CAP {
            TEMP_CAP as int
        } else {
            t2
        };
        (t3, p2)
    } else {
        let t2 = if tn * 2 > TEMP_CAP {
            TEMP_CAP as int
        } else {
            tn * 2
        };
        (t2, p)
    }
}

/// The calibration iteration from state `(tn, p)` at round `rounds`:
/// stop at the sweep cap, or once the chance lies within tolerance of
/// the target ratio; otherwise update and recurse.
pub open spec fn calib_iter(
    an: Analyzer,
    ev: Evaluator,
    l: Seq<usize>,
    swaps: Seq<Swap>,
    fitness: int,
    tn: int,
    p: int,
    rounds: int,
) -> int
    decreases 64 - rounds,
{
    if rounds >= 64 {
        tn
    } else if (if p >= RHO_Q32 {
        p - RHO_Q32
    } else {
        RHO_Q32 as int - p
    }) <= EPS_Q32 {
        tn
    } else {
        let up = calib_update(an, ev, l, swaps, fitness, tn, p);
        calib_iter(an, ev, l, swaps, fitness, up.0, up.1, rounds + 1)
    }
}

/// The calibrated initial temperature as a value: the seed score clamped
/// into `[1, TEMP_CAP]`, then the calibration iteration started from a
/// zero chance.
pub open spec fn calibrate_spec(
    an: Analyzer,
    ev: Evaluator,
    swaps: Seq<Swap>,
    l: Seq<usize>,
    fitness: int,
) -> int {
    let t0 = if fitness >= 1 {
        fitness
    } else {
        1int
    };
    let t1 = if t0 > TEMP_CAP {
        TEMP_CAP as int
    } else {
        t0
    };
    calib_iter(an, ev, l, swaps, fitness, t1, 0, 0)
}

/// Estimates the initial temperature so that the fraction of worsening
/// moves that would be accepted is close to the target ratio: sweep every
/// swap by the slow path, average the Metropolis chances of the strictly
/// worsening ones, and scale the temperature by the ratio of the
/// logarithms until the average lands inside the tolerance. A sweep
/// without worsening moves doubles the temperature instead; calibration
/// gives up after a fixed bound of sweeps, and the temperature saturates
/// at its cap.
fn calibrate_temperature(
    analyzer: &Analyzer,
    evaluator: &Evaluator,
    possible_swaps: &Vec<Swap>,
    layout: &mut Layout,
    diff: &mut Vec<i128>,
    fitness: i128,
) -> (t: i128)
    requires
        analyzer.wf(),
        analyzer.compatible(old(layout)@),
        evaluator.wf(),
        evaluator.indices_ok(analyzer.data.metric_count()),
        forall|k: int|
            0 <= k < possible_swaps@.len() ==> ((#[trigger] possible_swaps@[k]).a < old(
                layout,
            )@.len() && possible_swaps@[k].b < old(layout)@.len() && possible_swaps@[k].a
                != possible_swaps@[k].b),
        old(diff)@.len() == analyzer.data.metric_count(),
        -SCORE_BOUND <= fitness <= SCORE_BOUND,
    ensures
        final(layout)@ == old(layout)@,
        final(diff)@.len() == old(diff)@.len(),
        1 <= t <= TEMP_CAP,
        t as int == calibrate_spec(
            *analyzer,
            *evaluator,
            possible_swaps@,
            old(layout)@,
            fitness as int,
        ),
{
    let ghost l0 = old(layout)@;
    let ghost an = *analyzer;
    let ghost ev = *evaluator;
    let ghost target = calibrate_spec(an, ev, possible_swaps@, l0, fitness as int);
    let mut tn: i128 = if fitness >= 1 {
        fitness
    } else {
        1
    };
    if tn > TEMP_CAP {
        tn = TEMP_CAP;
    }
    let weight_sum = evaluator.weight_sum;
    let mut p_q32: u64 = 0;
    let mut rounds: u32 = 0;
    let mut settled = false;
    proof {
        assert(calib_iter(an, ev, l0, possible_swaps@, fitness as int, tn as int, 0, 0) == target);
    }
    while !settled && rounds < 64
        invariant
            analyzer.wf(),
            analyzer.compatible(layout@),
            evaluator.wf(),
            evaluator.indices_ok(analyzer.data.metric_count()),
            forall|k: int|
                0 <= k < possible_swaps@.len() ==> ((#[trigger] possible_swaps@[k]).a
                    < layout@.len() && possible_swaps@[k].b < layout@.len()
                    && possible_swaps@[k].a != possible_swaps@[k].b),
            layout@ == l0,
            diff@.len() == analyzer.data.metric_count(),
            -SCORE_BOUND <= fitness <= SCORE_BOUND,
            weight_sum == evaluator.weight_sum,
            an == *analyzer,
            ev == *evaluator,
            target == calibrate_spec(an, ev, possible_swaps@, l0, fitness as int),
            1 <= tn <= TEMP_CAP,
            rounds <= 64,
            p_q32 <= 4294967296,
            calib_iter(
                an,
                ev,
                l0,
                possible_swaps@,
                fitness as int,
                tn as int,
                p_q32 as int,
                rounds as int,
            ) == target,
            settled ==> tn as int == target,
        decreases 64 - rounds, (if settled {
            0int
        } else {
            1int
        }),
    {
        let diff_to_target = if p_q32 >= RHO_Q32 {
            p_q32 - RHO_Q32
        } else {
            RHO_Q32 - p_q32
        };
        if diff_to_target <= EPS_Q32 {
            proof {
                assert(calib_iter(
                    an,
                    ev,
                    l0,
                    possible_swaps@,
                    fitness as int,
                    tn as int,
                    p_q32 as int,
                    rounds as int,
                ) == tn as int);
            }
            settled = true;
        } else {
            let ghost tn0: int = tn as int;
            let ghost p0: int = p_q32 as int;
            let mut sum_exp: u128 = 0;
            let mut count: u128 = 0;
            let mut k: usize = 0;
            while k < possible_swaps.len()
                invariant
                    analyzer.wf(),
                    analyzer.compatible(layout@),
                    evaluator.wf(),
                    evaluator.indices_ok(analyzer.data.metric_count()),
                    forall|kk: int|
                        0 <= kk < possible_swaps@.len() ==> ((#[trigger] possible_swaps@[kk]).a
                            < layout@.len() && possible_swaps@[kk].b < layout@.len()
                            && possible_swaps@[kk].a != possible_swaps@[kk].b),
                    layout@ == l0,
                    diff@.len() == analyzer.data.metric_count(),
                    -SCORE_BOUND <= fitness <= SCORE_BOUND,
                    weight_sum == evaluator.weight_sum,
                    an == *analyzer,
                    ev == *evaluator,
                    1 <= tn <= TEMP_CAP,
                    tn as int == tn0,
                    k <= possible_swaps@.len(),
                    count <= k,
                    sum_exp <= count * 4294967296,
                    sum_exp as int == calib_sweep(
                        an,
                        ev,
                        l0,
                        possible_swaps@,
                        fitness as int,
                        tn0,
                        k as int,
                    ).0,
                    count as int == calib_sweep(
                        an,
                        ev,
                        l0,
                        possible_swaps@,
                        fitness as int,
                        tn0,
                        k as int,
                    ).1,
                decreases possible_swaps@.len() - k,
            {
                let sw = possible_swaps[k];
                let new_fitness = evaluate_swap_slowly(analyzer, evaluator, layout, diff, &sw);
                let delta = new_fitness - fitness;
                proof {
                    assert(possible_swaps@[k as int] == sw);
                    assert(new_fitness as int == score_of(
                        an,
                        ev,
                        apply_swap(l0, sw.a as int, sw.b as int),
                    ));
                    assert(calib_sweep(an, ev, l0, possible_swaps@, fitness as int, tn0, k + 1)
                        == calib_sweep(an, ev, l0, possible_swaps@, fitness as int, tn0, k + 1));
                }
                if 1000 * delta > weight_sum as i128 {
                    proof {
                        assert(delta >= 1);
                    }
                    let x = ratio_q32(delta, tn);
                    let e = exp_neg_q32(x);
                    proof {
                        assert(sum_exp + e <= (count + 1) * 4294967296) by (nonlinear_arith)
                            requires
                                sum_exp <= count * 4294967296,
                                e <= 4294967296,
                        ;
                    }
                    sum_exp = sum_exp + e as u128;
                    count = count + 1;
                }
                k = k + 1;
            }
            if count >= 1 {
                proof {
                    assert(sum_exp / count <= 4294967296) by (nonlinear_arith)
                        requires
                            1 <= count,
                            sum_exp <= count * 4294967296,
                    ;
                }
                p_q32 = (sum_exp / count) as u64;
                let pp: u64 = if p_q32 == 0 {
                    1
                } else {
                    p_q32
                };
                let lg = log2_q32(pp);
                let lgc: u64 = if lg > 32 * 4294967296 {
                    32 * 4294967296
                } else {
                    lg
                };
                let mag: u64 = 32 * 4294967296 - lgc;
                let ln_mag: u64 = (((mag as u128) * (LN2_Q32 as u128)) / (ONE_Q32 as u128)) as u64;
                proof {
                    assert((mag as int) * (LN2_Q32 as int) <= (137438953472int) * 4294967296)
                        by (nonlinear_arith)
                        requires
                            0 <= (mag as int) <= 137438953472,
                            0 < LN2_Q32 <= 4294967296,
                    ;
                    assert(0 <= ((mag as int) * (LN2_Q32 as int)) / 4294967296
                        <= 137438953472) by (nonlinear_arith)
                        requires
                            0 <= (mag as int) * (LN2_Q32 as int) <= 137438953472 * 4294967296,
                    ;
                    assert(tn * (ln_mag as i128) <= TEMP_CAP * 137438953472
                        && 0 <= tn * (ln_mag as i128)) by (nonlinear_arith)
                        requires
                            1 <= tn <= TEMP_CAP,
                            0 <= (ln_mag as i128) <= 137438953472,
                    ;
                }
                let mut next: i128 = (tn * (ln_mag as i128)) / (LN_RHO_MAG_Q32 as i128);
                if next < 1 {
                    next = 1;
                }
                if next > TEMP_CAP {
                    next = TEMP_CAP;
                }
                tn = next;
            } else {
                let mut next: i128 = tn * 2;
                if next > TEMP_CAP {
                    next = TEMP_CAP;
                }
                tn = next;
            }
            proof {
                let up = calib_update(an, ev, l0, possible_swaps@, fitness as int, tn0, p0);
                assert(up.0 == tn as int);
                assert(up.1 == p_q32 as int);
                assert(calib_iter(
                    an,
                    ev,
                    l0,
                    possible_swaps@,
                    fitness as int,
                    tn0,
                    p0,
                    rounds as int,
                ) == calib_iter(
                    an,
                    ev,
                    l0,
                    possible_swaps@,
                    fitness as int,
                    tn as int,
                    p_q32 as int,
                    rounds + 1,
                ));
            }
            rounds = rounds + 1;
        }
    }
    proof {
        if !settled {
            assert(rounds == 64);
            assert(calib_iter(
                an,
                ev,
                l0,
                possible_swaps@,
                fitness as int,
                tn as int,
                p_q32 as int,
                64,
            ) == tn as int);
        }
    }
    tn
}

/// The stopping bound as a value: the ceiling of
/// `n * (ln n + gamma) + 1/2` in Q32, with `n` clamped to at least one.
pub open spec fn stopping_point_spec(n: int) -> int {
    let n1 = if n <= 0 {
        1int
    } else {
        n
    };
    let ln_n = (log2_q32_spec_of(n1) * (LN2_Q32 as int)) / (ONE_Q32 as int);
    (n1 * (ln_n + (GAMMA_Q32 as int)) + (HALF_Q32 as int) + (ONE_Q32 as int) - 1) / (
    ONE_Q32 as int)
}

/// The library's binary logarithm, by name.
pub open spec fn log2_q32_spec_of(x: int) -> int {
    crate::fixedpoint::log2_q32_spec(x)
}

} // verus!
