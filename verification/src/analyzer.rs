//! The layout metric engine: full recomputation and incremental swap
//! deltas of per-metric totals.
//!
//! A stat is the exact integer sum, over every stroke record and every
//! contribution `(metric, amount)` it carries, of `amount * frequency`,
//! where the frequency is the corpus count of the ngram the layout spells
//! at the stroke's positions. `swap_diff` computes, via the position-stroke
//! index, exactly the difference between the stats of the swapped and the
//! current layout — the delta identity is part of its contract.

use vstd::prelude::*;

use crate::corpus::{Corpus, NgramKind};
use crate::layout::{apply_swap, Layout, Swap};
use crate::metric::{stroke_ok, touches, touches_exec, MetricData, Nstroke, StrokeRec};
use crate::sums::{
    guarded, lemma_sum_enum, lemma_sum_idx_abs, lemma_sum_idx_prefix_step, lemma_sum_n_abs,
    lemma_sum_n_add, lemma_sum_n_ext, lemma_strictly_increasing_bounds, strictly_increasing,
    sum_idx, sum_n,
};
use crate::{AMT_TERM_BOUND, FREQ_BOUND, MAX_STROKES, STAT_BOUND, STROKE_BOUND};

verus! {

/// The corpus frequency a stroke reads under a layout, for a metric of the
/// given ngram kind; an arity mismatch contributes nothing.
pub open spec fn freq_for(c: Corpus, kind: NgramKind, l: Seq<usize>, ns: Nstroke) -> int {
    match ns {
        Nstroke::Monostroke(p0) => if kind == NgramKind::Monogram {
            c.mono_freq(l[p0 as int] as int)
        } else {
            0
        },
        Nstroke::Bistroke(p0, p1) => if kind == NgramKind::Bigram {
            c.bi_freq(l[p0 as int] as int, l[p1 as int] as int)
        } else if kind == NgramKind::Skipgram {
            c.skip_freq(l[p0 as int] as int, l[p1 as int] as int)
        } else {
            0
        },
        Nstroke::Tristroke(p0, p1, p2) => if kind == NgramKind::Trigram {
            c.tri_freq(l[p0 as int] as int, l[p1 as int] as int, l[p2 as int] as int)
        } else {
            0
        },
    }
}

/// The `j`-th contribution of stroke record `s` to metric `m` under layout
/// `l`: its amount times the stroke's frequency, or zero for another
/// metric.
pub open spec fn amount_term(
    kinds: Seq<NgramKind>,
    c: Corpus,
    l: Seq<usize>,
    s: StrokeRec,
    j: int,
    m: int,
) -> int {
    let am = s.amounts[j];
    if am.metric == m {
        (am.amount as int) * freq_for(c, kinds[m], l, s.nstroke)
    } else {
        0
    }
}

/// `amount_term` as a function of `j`.
pub open spec fn amount_fn(
    kinds: Seq<NgramKind>,
    c: Corpus,
    l: Seq<usize>,
    s: StrokeRec,
    m: int,
) -> spec_fn(int) -> int {
    |j: int| amount_term(kinds, c, l, s, j, m)
}

/// One stroke record's total contribution to metric `m` under layout `l`.
pub open spec fn stroke_contrib(
    kinds: Seq<NgramKind>,
    c: Corpus,
    l: Seq<usize>,
    s: StrokeRec,
    m: int,
) -> int {
    sum_n(s.amounts.len() as int, amount_fn(kinds, c, l, s, m))
}

/// `stroke_contrib` as a function of the stroke index.
pub open spec fn stroke_fn(
    kinds: Seq<NgramKind>,
    c: Corpus,
    l: Seq<usize>,
    strokes: Seq<StrokeRec>,
    m: int,
) -> spec_fn(int) -> int {
    |i: int| stroke_contrib(kinds, c, l, strokes[i], m)
}

/// The stat of metric `m` for layout `l`: the sum of every stroke record's
/// contribution.
pub open spec fn stat_seq(
    kinds: Seq<NgramKind>,
    c: Corpus,
    l: Seq<usize>,
    strokes: Seq<StrokeRec>,
    m: int,
) -> int {
    sum_n(strokes.len() as int, stroke_fn(kinds, c, l, strokes, m))
}

/// Per stroke index, the change of its contribution to metric `m` caused
/// by swapping positions `a` and `b` of layout `l`.
pub open spec fn delta_fn(
    kinds: Seq<NgramKind>,
    c: Corpus,
    l: Seq<usize>,
    a: int,
    b: int,
    strokes: Seq<StrokeRec>,
    m: int,
) -> spec_fn(int) -> int {
    |i: int|
        stroke_contrib(kinds, c, apply_swap(l, a, b), strokes[i], m) - stroke_contrib(
            kinds,
            c,
            l,
            strokes[i],
            m,
        )
}

/// `delta_fn`, but zero on strokes that touch position `a` (already
/// visited through `a`'s index row).
pub open spec fn delta_skip_fn(
    kinds: Seq<NgramKind>,
    c: Corpus,
    l: Seq<usize>,
    a: int,
    b: int,
    strokes: Seq<StrokeRec>,
    m: int,
) -> spec_fn(int) -> int {
    |i: int|
        if touches(strokes[i].nstroke, a) {
            0
        } else {
            delta_fn(kinds, c, l, a, b, strokes, m)(i)
        }
}

/// Whether stroke `i` touches position `p`, as a function of `i`.
pub open spec fn touch_pred(strokes: Seq<StrokeRec>, p: int) -> spec_fn(int) -> bool {
    |i: int| touches(strokes[i].nstroke, p)
}

/// Whether stroke `i` touches position `a` or position `b`.
pub open spec fn touch2_pred(strokes: Seq<StrokeRec>, a: int, b: int) -> spec_fn(int) -> bool {
    |i: int| touches(strokes[i].nstroke, a) || touches(strokes[i].nstroke, b)
}

/// The analyzer: a metric store plus the corpus it is scored against.
pub struct Analyzer {
    pub data: MetricData,
    pub corpus: Corpus,
}

impl Analyzer {
    /// Both parts are well formed.
    pub open spec fn wf(self) -> bool {
        self.data.wf() && self.corpus.wf()
    }

    /// A layout fits this analyzer: one code per keyboard position, every
    /// code inside the corpus's code space.
    pub open spec fn compatible(self, l: Seq<usize>) -> bool {
        &&& l.len() == self.data.position_count()
        &&& forall|p: int| 0 <= p < l.len() ==> (#[trigger] l[p]) < self.corpus.n()
    }

    /// The stat of metric `m` for layout `l`.
    pub open spec fn stat(self, l: Seq<usize>, m: int) -> int {
        stat_seq(self.data.kinds(), self.corpus, l, self.data.strokes_view(), m)
    }

    /// The full stats vector of layout `l`, one slot per metric.
    pub open spec fn stats_spec(self, l: Seq<usize>) -> Seq<int> {
        Seq::new(self.data.metric_count() as nat, |m: int| self.stat(l, m))
    }

    /// Pairs a metric store with a corpus.
    pub fn from(data: MetricData, corpus: Corpus) -> (r: Analyzer)
        ensures
            r.data == data,
            r.corpus == corpus,
    {
        Analyzer { data, corpus }
    }

    /// Reads the frequency a stroke spells under the layout, for a metric
    /// of the given kind.
    fn stroke_freq(&self, kind: NgramKind, layout: &Layout, ns: &Nstroke) -> (f: u32)
        requires
            self.wf(),
            self.compatible(layout@),
            crate::metric::positions_ok(*ns, layout@.len() as int),
        ensures
            f as int == freq_for(self.corpus, kind, layout@, *ns),
    {
        match *ns {
            Nstroke::Monostroke(p0) => match kind {
                NgramKind::Monogram => self.corpus.unigram_freq(layout.0[p0]),
                _ => 0,
            },
            Nstroke::Bistroke(p0, p1) => match kind {
                NgramKind::Bigram => self.corpus.bigram_freq(layout.0[p0], layout.0[p1]),
                NgramKind::Skipgram => self.corpus.skipgram_freq(layout.0[p0], layout.0[p1]),
                _ => 0,
            },
            Nstroke::Tristroke(p0, p1, p2) => match kind {
                NgramKind::Trigram => self.corpus.trigram_freq(
                    layout.0[p0],
                    layout.0[p1],
                    layout.0[p2],
                ),
                _ => 0,
            },
        }
    }

    /// Reads the frequency a stroke would spell after swapping positions
    /// `a` and `b`, without mutating the layout.
    fn stroke_freq_swapped(
        &self,
        kind: NgramKind,
        layout: &Layout,
        a: usize,
        b: usize,
        ns: &Nstroke,
    ) -> (f: u32)
        requires
            self.wf(),
            self.compatible(layout@),
            a < layout@.len(),
            b < layout@.len(),
            crate::metric::positions_ok(*ns, layout@.len() as int),
        ensures
            f as int == freq_for(self.corpus, kind, apply_swap(layout@, a as int, b as int), *ns),
    {
        proof {
            assert(apply_swap(layout@, a as int, b as int).len() == layout@.len());
        }
        match *ns {
            Nstroke::Monostroke(p0) => match kind {
                NgramKind::Monogram => self.corpus.unigram_freq(swapped_code(layout, a, b, p0)),
                _ => 0,
            },
            Nstroke::Bistroke(p0, p1) => match kind {
                NgramKind::Bigram => self.corpus.bigram_freq(
                    swapped_code(layout, a, b, p0),
                    swapped_code(layout, a, b, p1),
                ),
                NgramKind::Skipgram => self.corpus.skipgram_freq(
                    swapped_code(layout, a, b, p0),
                    swapped_code(layout, a, b, p1),
                ),
                _ => 0,
            },
            Nstroke::Tristroke(p0, p1, p2) => match kind {
                NgramKind::Trigram => self.corpus.trigram_freq(
                    swapped_code(layout, a, b, p0),
                    swapped_code(layout, a, b, p1),
                    swapped_code(layout, a, b, p2),
                ),
                _ => 0,
            },
        }
    }

    /// Writes the full stats of `layout` into the zeroed buffer
    /// `stats`: afterwards slot `m` holds exactly the stat of metric `m`.
    pub fn recalc_stats(&self, stats: &mut Vec<i128>, layout: &Layout)
        requires
            self.wf(),
            self.compatible(layout@),
            old(stats)@.len() == self.data.metric_count(),
            forall|m: int| 0 <= m < old(stats)@.len() ==> old(stats)@[m] == 0,
        ensures
            final(stats)@.len() == self.data.metric_count(),
            forall|m: int|
                0 <= m < final(stats)@.len() ==> (#[trigger] final(stats)@[m]) as int == self.stat(
                    layout@,
                    m,
                ),
            forall|m: int|
                0 <= m < final(stats)@.len() ==> -STAT_BOUND <= (#[trigger] final(stats)@[m])
                    <= STAT_BOUND,
    {
        let ghost kinds = self.data.kinds();
        let ghost recs = self.data.strokes_view();
        let ghost l = layout@;
        let ghost mcount = self.data.metric_count();
        let s_len = self.data.strokes.len();
        let mut i: usize = 0;
        while i < s_len
            invariant
                self.wf(),
                self.compatible(layout@),
                kinds == self.data.kinds(),
                recs == self.data.strokes_view(),
                l == layout@,
                mcount == self.data.metric_count(),
                s_len == recs.len(),
                i <= s_len,
                stats@.len() == mcount,
                forall|m: int|
                    0 <= m < mcount ==> (#[trigger] stats@[m]) as int == sum_n(
                        i as int,
                        stroke_fn(kinds, self.corpus, l, recs, m),
                    ),
            decreases s_len - i,
        {
            let stroke = &self.data.strokes[i];
            proof {
                assert(recs[i as int] == self.data.strokes@[i as int]@);
                assert(stroke_ok(
                    recs[i as int],
                    self.data.metric_count(),
                    kinds,
                    self.data.position_count(),
                ));
            }
            let ghost base = stats@;
            let a_len = stroke.amounts.len();
            let mut j: usize = 0;
            while j < a_len
                invariant
                    self.wf(),
                    self.compatible(layout@),
                    kinds == self.data.kinds(),
                    recs == self.data.strokes_view(),
                    l == layout@,
                    mcount == self.data.metric_count(),
                    s_len == recs.len(),
                    i < s_len,
                    stroke == &self.data.strokes[i as int],
                    stroke@ == recs[i as int],
                    a_len == stroke.amounts@.len(),
                    j <= a_len,
                    base.len() == mcount,
                    stats@.len() == mcount,
                    forall|m: int|
                        0 <= m < mcount ==> (#[trigger] base[m]) as int == sum_n(
                            i as int,
                            stroke_fn(kinds, self.corpus, l, recs, m),
                        ),
                    forall|m: int|
                        0 <= m < mcount ==> (#[trigger] stats@[m]) as int == base[m]
                            + sum_n(j as int, amount_fn(kinds, self.corpus, l, recs[i as int], m)),
                decreases a_len - j,
            {
                let am = stroke.amounts[j];
                let ghost m = am.metric as int;
                let kind = self.data.metrics[am.metric].kind;
                proof {
                    assert(kinds[m] == kind);
                    lemma_all_stroke_bounds(kinds, self.corpus, l, recs, mcount);
                    lemma_sum_n_abs(i as int, STROKE_BOUND as int, stroke_fn(kinds, self.corpus, l, recs, m));
                    lemma_all_amount_bounds(kinds, self.corpus, l, recs[i as int], m, mcount);
                    lemma_sum_n_abs(
                        j as int,
                        AMT_TERM_BOUND as int,
                        amount_fn(kinds, self.corpus, l, recs[i as int], m),
                    );
                    lemma_freq_bound(self.corpus, kinds[m], l, recs[i as int].nstroke);
                    assert((am.amount as int) * freq_for(self.corpus, kind, l, recs[i as int].nstroke)
                        <= AMT_TERM_BOUND && -AMT_TERM_BOUND <= (am.amount as int) * freq_for(
                        self.corpus,
                        kind,
                        l,
                        recs[i as int].nstroke,
                    )) by (nonlinear_arith)
                        requires
                            -1000000 <= am.amount <= 1000000,
                            0 <= freq_for(self.corpus, kind, l, recs[i as int].nstroke) < FREQ_BOUND,
                            AMT_TERM_BOUND == 1000000 * FREQ_BOUND,
                    ;
                }
                let f = self.stroke_freq(kind, layout, &stroke.nstroke);
                let term: i128 = (am.amount as i128) * (f as i128);
                let cur = stats[am.metric];
                stats.set(am.metric, cur + term);
                proof {
                    let fj = amount_fn(kinds, self.corpus, l, recs[i as int], m);
                    assert(fj(j as int) == term as int);
                    assert forall|mm: int| 0 <= mm < mcount implies (#[trigger] stats@[mm]) as int
                        == base[mm] + sum_n(
                        j + 1,
                        amount_fn(kinds, self.corpus, l, recs[i as int], mm),
                    ) by {
                        let fmm = amount_fn(kinds, self.corpus, l, recs[i as int], mm);
                        assert(sum_n(j + 1, fmm) == sum_n(j as int, fmm) + fmm(j as int));
                        if mm != m {
                            assert(fmm(j as int) == 0);
                        }
                    }
                }
                j = j + 1;
            }
            proof {
                assert forall|m: int| 0 <= m < mcount implies (#[trigger] stats@[m]) as int == sum_n(
                    i + 1,
                    stroke_fn(kinds, self.corpus, l, recs, m),
                ) by {
                    let fm = stroke_fn(kinds, self.corpus, l, recs, m);
                    assert(sum_n(i + 1, fm) == sum_n(i as int, fm) + fm(i as int));
                    assert(fm(i as int) == stroke_contrib(kinds, self.corpus, l, recs[i as int], m));
                }
            }
            i = i + 1;
        }
        proof {
            lemma_all_stroke_bounds(kinds, self.corpus, l, recs, mcount);
            assert forall|m: int| 0 <= m < mcount implies -STAT_BOUND <= (#[trigger] stats@[m])
                <= STAT_BOUND by {
                lemma_sum_n_abs(s_len as int, STROKE_BOUND as int, stroke_fn(kinds, self.corpus, l, recs, m));
                assert((s_len as int) * STROKE_BOUND <= (MAX_STROKES as int) * STROKE_BOUND)
                    by (nonlinear_arith)
                    requires
                        0 <= s_len <= MAX_STROKES,
                        STROKE_BOUND > 0,
                ;
            }
        }
    }

    /// Accumulates one stroke's swap delta into the buffer: for every
    /// metric, the stroke's contribution under the swapped layout minus
    /// its contribution under the current one.
    fn accumulate_stroke_delta(
        &self,
        diff: &mut Vec<i128>,
        layout: &Layout,
        a: usize,
        b: usize,
        i: usize,
    )
        requires
            self.wf(),
            self.compatible(layout@),
            a < layout@.len(),
            b < layout@.len(),
            a != b,
            i < self.data.strokes@.len(),
            old(diff)@.len() == self.data.metric_count(),
            forall|m: int|
                0 <= m < old(diff)@.len() ==> -(STAT_BOUND * 4) <= (#[trigger] old(diff)@[m])
                    <= STAT_BOUND * 4,
        ensures
            final(diff)@.len() == old(diff)@.len(),
            forall|m: int|
                0 <= m < final(diff)@.len() ==> (#[trigger] final(diff)@[m]) as int == old(
                    diff,
                )@[m] + delta_fn(
                    self.data.kinds(),
                    self.corpus,
                    layout@,
                    a as int,
                    b as int,
                    self.data.strokes_view(),
                    m,
                )(i as int),
    {
        let ghost kinds = self.data.kinds();
        let ghost recs = self.data.strokes_view();
        let ghost l = layout@;
        let ghost lp = apply_swap(l, a as int, b as int);
        let ghost mcount = self.data.metric_count();
        let ghost base = diff@;
        let stroke = &self.data.strokes[i];
        proof {
            assert(recs[i as int] == self.data.strokes@[i as int]@);
            assert(stroke_ok(
                recs[i as int],
                self.data.metric_count(),
                kinds,
                self.data.position_count(),
            ));
        }
        let a_len = stroke.amounts.len();
        let mut j: usize = 0;
        while j < a_len
            invariant
                self.wf(),
                self.compatible(layout@),
                a < layout@.len(),
                b < layout@.len(),
                a != b,
                i < self.data.strokes@.len(),
                kinds == self.data.kinds(),
                recs == self.data.strokes_view(),
                l == layout@,
                lp == apply_swap(l, a as int, b as int),
                mcount == self.data.metric_count(),
                stroke == &self.data.strokes[i as int],
                stroke@ == recs[i as int],
                a_len == stroke.amounts@.len(),
                j <= a_len,
                base.len() == mcount,
                diff@.len() == mcount,
                forall|m: int|
                    0 <= m < mcount ==> -(STAT_BOUND * 4) <= (#[trigger] base[m]) <= STAT_BOUND
                        * 4,
                forall|m: int|
                    0 <= m < mcount ==> (#[trigger] diff@[m]) as int == base[m] + sum_n(
                        j as int,
                        amount_fn(kinds, self.corpus, lp, recs[i as int], m),
                    ) - sum_n(j as int, amount_fn(kinds, self.corpus, l, recs[i as int], m)),
            decreases a_len - j,
        {
            let am = stroke.amounts[j];
            let ghost m = am.metric as int;
            let kind = self.data.metrics[am.metric].kind;
            proof {
                assert(kinds[m] == kind);
                assert(lp.len() == l.len());
                assert forall|p: int| 0 <= p < lp.len() implies (#[trigger] lp[p])
                    < self.corpus.n() by {
                    if p == b {
                        assert(lp[p] == l[a as int]);
                    } else if p == a {
                        assert(lp[p] == l[b as int]);
                    } else {
                        assert(lp[p] == l[p]);
                    }
                }
                lemma_all_amount_bounds(kinds, self.corpus, l, recs[i as int], m, mcount);
                lemma_all_amount_bounds(kinds, self.corpus, lp, recs[i as int], m, mcount);
                lemma_sum_n_abs(
                    j as int,
                    AMT_TERM_BOUND as int,
                    amount_fn(kinds, self.corpus, l, recs[i as int], m),
                );
                lemma_sum_n_abs(
                    j as int,
                    AMT_TERM_BOUND as int,
                    amount_fn(kinds, self.corpus, lp, recs[i as int], m),
                );
                lemma_freq_bound(self.corpus, kinds[m], l, recs[i as int].nstroke);
                lemma_freq_bound(self.corpus, kinds[m], lp, recs[i as int].nstroke);
            }
            let f_new = self.stroke_freq_swapped(kind, layout, a, b, &stroke.nstroke);
            let f_old = self.stroke_freq(kind, layout, &stroke.nstroke);
            proof {
                let fn_ = freq_for(self.corpus, kind, lp, recs[i as int].nstroke);
                let fo = freq_for(self.corpus, kind, l, recs[i as int].nstroke);
                assert((am.amount as int) * (fn_ - fo) == (am.amount as int) * fn_ - (
                am.amount as int) * fo && -(AMT_TERM_BOUND as int) * 2 <= (am.amount as int) * (fn_
                    - fo) <= (AMT_TERM_BOUND as int) * 2) by (nonlinear_arith)
                    requires
                        -1000000 <= am.amount <= 1000000,
                        0 <= fn_ < FREQ_BOUND,
                        0 <= fo < FREQ_BOUND,
                        AMT_TERM_BOUND == 1000000 * FREQ_BOUND,
                ;
            }
            let term: i128 = (am.amount as i128) * (f_new as i128 - f_old as i128);
            let cur = diff[am.metric];
            diff.set(am.metric, cur + term);
            proof {
                assert forall|mm: int| 0 <= mm < mcount implies (#[trigger] diff@[mm]) as int
                    == base[mm] + sum_n(j + 1, amount_fn(kinds, self.corpus, lp, recs[i as int], mm))
                    - sum_n(j + 1, amount_fn(kinds, self.corpus, l, recs[i as int], mm)) by {
                    let fp = amount_fn(kinds, self.corpus, lp, recs[i as int], mm);
                    let fo = amount_fn(kinds, self.corpus, l, recs[i as int], mm);
                    assert(sum_n(j + 1, fp) == sum_n(j as int, fp) + fp(j as int));
                    assert(sum_n(j + 1, fo) == sum_n(j as int, fo) + fo(j as int));
                    if mm != m {
                        assert(fp(j as int) == 0 && fo(j as int) == 0);
                    }
                }
            }
            j = j + 1;
        }
        proof {
            assert forall|m: int| 0 <= m < mcount implies (#[trigger] diff@[m]) as int == base[m]
                + delta_fn(kinds, self.corpus, l, a as int, b as int, recs, m)(i as int) by {
                assert(stroke_contrib(kinds, self.corpus, lp, recs[i as int], m) == sum_n(
                    a_len as int,
                    amount_fn(kinds, self.corpus, lp, recs[i as int], m),
                ));
                assert(stroke_contrib(kinds, self.corpus, l, recs[i as int], m) == sum_n(
                    a_len as int,
                    amount_fn(kinds, self.corpus, l, recs[i as int], m),
                ));
            }
        }
    }

    /// Accumulates into the zeroed buffer `diff`, for every metric, exactly
    /// the change the swap would cause: afterwards slot `m` holds
    /// `stat(apply_swap(layout), m) - stat(layout, m)`. The layout itself
    /// is never mutated, and each affected stroke is visited exactly once,
    /// even when both swapped positions occur in it. This is the delta
    /// identity: the current stats plus this difference are exactly the
    /// stats of the swapped layout.
    pub fn swap_diff(&self, diff: &mut Vec<i128>, layout: &Layout, swap: &Swap)
        requires
            self.wf(),
            self.compatible(layout@),
            swap.wf(layout@.len() as int),
            old(diff)@.len() == self.data.metric_count(),
            forall|m: int| 0 <= m < old(diff)@.len() ==> old(diff)@[m] == 0,
        ensures
            final(diff)@.len() == self.data.metric_count(),
            forall|m: int|
                0 <= m < final(diff)@.len() ==> (#[trigger] final(diff)@[m]) as int == self.stat(
                    apply_swap(layout@, swap.a as int, swap.b as int),
                    m,
                ) - self.stat(layout@, m),
            forall|m: int|
                0 <= m < final(diff)@.len() ==> -(STAT_BOUND * 2) <= (#[trigger] final(diff)@[m])
                    <= STAT_BOUND * 2,
    {
        let a = swap.a;
        let b = swap.b;
        let ghost kinds = self.data.kinds();
        let ghost recs = self.data.strokes_view();
        let ghost l = layout@;
        let ghost mcount = self.data.metric_count();
        let ghost big_s = recs.len() as int;
        let ghost qa = self.data.row_int(a as int);
        let ghost qb = self.data.row_int(b as int);
        proof {
            lemma_row_int_props(self.data, a as int);
            lemma_row_int_props(self.data, b as int);
            lemma_strictly_increasing_bounds(qa, big_s);
            lemma_strictly_increasing_bounds(qb, big_s);
        }
        let row_a = &self.data.position_strokes[a];
        let mut ka: usize = 0;
        while ka < row_a.len()
            invariant
                self.wf(),
                self.compatible(layout@),
                a == swap.a,
                b == swap.b,
                a < layout@.len(),
                b < layout@.len(),
                a != b,
                kinds == self.data.kinds(),
                recs == self.data.strokes_view(),
                l == layout@,
                mcount == self.data.metric_count(),
                big_s == recs.len(),
                qa == self.data.row_int(a as int),
                row_a == &self.data.position_strokes@[a as int],
                row_a@.len() == qa.len(),
                qa.len() <= big_s,
                ka <= row_a@.len(),
                diff@.len() == mcount,
                forall|m: int|
                    0 <= m < mcount ==> (#[trigger] diff@[m]) as int == sum_idx(
                        qa.subrange(0, ka as int),
                        delta_fn(kinds, self.corpus, l, a as int, b as int, recs, m),
                    ),
            decreases row_a@.len() - ka,
        {
            let i = row_a[ka];
            proof {
                assert(qa[ka as int] == i as int);
                assert(0 <= qa[ka as int] < big_s);
                lemma_all_delta_bounds(kinds, self.corpus, l, a as int, b as int, recs, mcount);
                assert forall|m: int| 0 <= m < mcount implies -(STAT_BOUND * 4) <= (
                #[trigger] diff@[m]) <= STAT_BOUND * 4 by {
                    let dm = delta_fn(kinds, self.corpus, l, a as int, b as int, recs, m);
                    lemma_sum_idx_abs(qa.subrange(0, ka as int), (STROKE_BOUND as int) * 2, dm);
                }
            }
            self.accumulate_stroke_delta(diff, layout, a, b, i);
            proof {
                assert forall|m: int| 0 <= m < mcount implies (#[trigger] diff@[m]) as int
                    == sum_idx(
                    qa.subrange(0, ka + 1),
                    delta_fn(kinds, self.corpus, l, a as int, b as int, recs, m),
                ) by {
                    let dm = delta_fn(kinds, self.corpus, l, a as int, b as int, recs, m);
                    lemma_sum_idx_prefix_step(qa, ka as int, dm);
                }
            }
            ka = ka + 1;
        }
        proof {
            assert(qa.subrange(0, qa.len() as int) =~= qa);
        }
        let row_b = &self.data.position_strokes[b];
        let mut kb: usize = 0;
        while kb < row_b.len()
            invariant
                self.wf(),
                self.compatible(layout@),
                a == swap.a,
                b == swap.b,
                a < layout@.len(),
                b < layout@.len(),
                a != b,
                kinds == self.data.kinds(),
                recs == self.data.strokes_view(),
                l == layout@,
                mcount == self.data.metric_count(),
                big_s == recs.len(),
                qa == self.data.row_int(a as int),
                qb == self.data.row_int(b as int),
                row_b == &self.data.position_strokes@[b as int],
                row_b@.len() == qb.len(),
                qa.len() <= big_s,
                qb.len() <= big_s,
                kb <= row_b@.len(),
                diff@.len() == mcount,
                forall|m: int|
                    0 <= m < mcount ==> (#[trigger] diff@[m]) as int == sum_idx(
                        qa,
                        delta_fn(kinds, self.corpus, l, a as int, b as int, recs, m),
                    ) + sum_idx(
                        qb.subrange(0, kb as int),
                        delta_skip_fn(kinds, self.corpus, l, a as int, b as int, recs, m),
                    ),
            decreases row_b@.len() - kb,
        {
            let i = row_b[kb];
            proof {
                assert(qb[kb as int] == i as int);
                assert(0 <= qb[kb as int] < big_s);
            }
            let stroke_touches_a = touches_exec(&self.data.strokes[i].nstroke, a);
            proof {
                assert(recs[i as int].nstroke == self.data.strokes@[i as int].nstroke);
            }
            if !stroke_touches_a {
                proof {
                    lemma_all_delta_bounds(kinds, self.corpus, l, a as int, b as int, recs, mcount);
                    assert forall|m: int| 0 <= m < mcount implies -(STAT_BOUND * 4) <= (
                    #[trigger] diff@[m]) <= STAT_BOUND * 4 by {
                        let dm = delta_fn(kinds, self.corpus, l, a as int, b as int, recs, m);
                        let dsm = delta_skip_fn(kinds, self.corpus, l, a as int, b as int, recs, m);
                        lemma_sum_idx_abs(qa, (STROKE_BOUND as int) * 2, dm);
                        lemma_sum_idx_abs(qb.subrange(0, kb as int), (STROKE_BOUND as int) * 2, dsm);
                    }
                }
                self.accumulate_stroke_delta(diff, layout, a, b, i);
                proof {
                    assert forall|m: int| 0 <= m < mcount implies (#[trigger] diff@[m]) as int
                        == sum_idx(
                        qa,
                        delta_fn(kinds, self.corpus, l, a as int, b as int, recs, m),
                    ) + sum_idx(
                        qb.subrange(0, kb + 1),
                        delta_skip_fn(kinds, self.corpus, l, a as int, b as int, recs, m),
                    ) by {
                        let dm = delta_fn(kinds, self.corpus, l, a as int, b as int, recs, m);
                        let dsm = delta_skip_fn(kinds, self.corpus, l, a as int, b as int, recs, m);
                        lemma_sum_idx_prefix_step(qb, kb as int, dsm);
                        assert(dsm(qb[kb as int]) == dm(qb[kb as int]));
                    }
                }
            } else {
                proof {
                    assert forall|m: int| 0 <= m < mcount implies (#[trigger] diff@[m]) as int
                        == sum_idx(
                        qa,
                        delta_fn(kinds, self.corpus, l, a as int, b as int, recs, m),
                    ) + sum_idx(
                        qb.subrange(0, kb + 1),
                        delta_skip_fn(kinds, self.corpus, l, a as int, b as int, recs, m),
                    ) by {
                        let dsm = delta_skip_fn(kinds, self.corpus, l, a as int, b as int, recs, m);
                        lemma_sum_idx_prefix_step(qb, kb as int, dsm);
                        assert(dsm(qb[kb as int]) == 0);
                    }
                }
            }
            kb = kb + 1;
        }
        proof {
            assert(qb.subrange(0, qb.len() as int) =~= qb);
            let ai = a as int;
            let bi = b as int;
            let lp = apply_swap(l, ai, bi);
            assert forall|m: int| 0 <= m < mcount implies (#[trigger] diff@[m]) as int == stat_seq(
                kinds,
                self.corpus,
                lp,
                recs,
                m,
            ) - stat_seq(kinds, self.corpus, l, recs, m) by {
                let dm = delta_fn(kinds, self.corpus, l, ai, bi, recs, m);
                let dsm = delta_skip_fn(kinds, self.corpus, l, ai, bi, recs, m);
                let ta = touch_pred(recs, ai);
                let tb = touch_pred(recs, bi);
                let tab = touch2_pred(recs, ai, bi);
                assert forall|j: int| 0 <= j < qa.len() implies 0 <= #[trigger] qa[j] < big_s && ta(
                    qa[j],
                ) by {
                    assert(touches(recs[qa[j]].nstroke, ai));
                }
                assert forall|ii: int| 0 <= ii < big_s && #[trigger] ta(ii) implies qa.contains(
                    ii,
                ) by {
                    assert(touches(recs[ii].nstroke, ai));
                }
                lemma_sum_enum(qa, big_s, ta, dm);
                assert forall|j: int| 0 <= j < qb.len() implies 0 <= #[trigger] qb[j] < big_s && tb(
                    qb[j],
                ) by {
                    assert(touches(recs[qb[j]].nstroke, bi));
                }
                assert forall|ii: int| 0 <= ii < big_s && #[trigger] tb(ii) implies qb.contains(
                    ii,
                ) by {
                    assert(touches(recs[ii].nstroke, bi));
                }
                lemma_sum_enum(qb, big_s, tb, dsm);
                assert forall|ii: int| 0 <= ii < big_s implies #[trigger] guarded(tab, dm)(ii)
                    == guarded(ta, dm)(ii) + guarded(tb, dsm)(ii) by {
                    if ta(ii) {
                        assert(dsm(ii) == 0);
                    }
                }
                lemma_sum_n_add(big_s, guarded(ta, dm), guarded(tb, dsm), guarded(tab, dm));
                assert forall|ii: int| 0 <= ii < big_s implies #[trigger] guarded(tab, dm)(ii)
                    == dm(ii) by {
                    if !ta(ii) && !tb(ii) {
                        lemma_untouched_stroke(kinds, self.corpus, l, ai, bi, recs[ii], m);
                    }
                }
                lemma_sum_n_ext(big_s, guarded(tab, dm), dm);
                assert forall|ii: int| 0 <= ii < big_s implies #[trigger] stroke_fn(
                    kinds,
                    self.corpus,
                    lp,
                    recs,
                    m,
                )(ii) == stroke_fn(kinds, self.corpus, l, recs, m)(ii) + dm(ii) by {}
                lemma_sum_n_add(
                    big_s,
                    stroke_fn(kinds, self.corpus, l, recs, m),
                    dm,
                    stroke_fn(kinds, self.corpus, lp, recs, m),
                );
            }
            assert forall|p: int| 0 <= p < lp.len() implies (#[trigger] lp[p])
                < self.corpus.n() by {
                if p == bi {
                    assert(lp[p] == l[ai]);
                } else if p == ai {
                    assert(lp[p] == l[bi]);
                } else {
                    assert(lp[p] == l[p]);
                }
            }
            assert forall|m: int| 0 <= m < mcount implies -(STAT_BOUND * 2) <= (
            #[trigger] diff@[m]) <= STAT_BOUND * 2 by {
                lemma_stat_bound(kinds, self.corpus, l, recs, m, mcount);
                lemma_stat_bound(kinds, self.corpus, lp, recs, m, mcount);
            }
        }
    }

    /// Computes the full stats vector of `layout` from scratch.
    pub fn calc_stats(&self, layout: &Layout) -> (stats: Vec<i128>)
        requires
            self.wf(),
            self.compatible(layout@),
        ensures
            stats@.len() == self.data.metric_count(),
            forall|m: int|
                0 <= m < stats@.len() ==> (#[trigger] stats@[m]) as int == self.stat(layout@, m),
            forall|m: int|
                0 <= m < stats@.len() ==> -STAT_BOUND <= (#[trigger] stats@[m]) <= STAT_BOUND,
    {
        let mut stats: Vec<i128> = zero_stats(self.data.metrics.len());
        self.recalc_stats(&mut stats, layout);
        stats
    }
}

/// The layout code at position `p` as it would read after swapping `a`
/// and `b`, read without mutating the layout.
fn swapped_code(layout: &Layout, a: usize, b: usize, p: usize) -> (code: usize)
    requires
        a < layout@.len(),
        b < layout@.len(),
        p < layout@.len(),
    ensures
        code == apply_swap(layout@, a as int, b as int)[p as int],
{
    if p == a {
        layout.0[b]
    } else if p == b {
        layout.0[a]
    } else {
        layout.0[p]
    }
}

/// A zeroed stats buffer of the given length.
pub fn zero_stats(len: usize) -> (v: Vec<i128>)
    ensures
        v@.len() == len,
        forall|m: int| 0 <= m < len ==> (#[trigger] v@[m]) == 0,
{
    let mut v: Vec<i128> = Vec::new();
    let mut k: usize = 0;
    while k < len
        invariant
            k <= len,
            v@.len() == k,
            forall|m: int| 0 <= m < k ==> (#[trigger] v@[m]) == 0,
        decreases len - k,
    {
        v.push(0);
        k = k + 1;
    }
    v
}

/// Zeroes an existing buffer in place, keeping its length.
pub fn reset_stats(v: &mut Vec<i128>)
    ensures
        final(v)@.len() == old(v)@.len(),
        forall|m: int| 0 <= m < final(v)@.len() ==> (#[trigger] final(v)@[m]) == 0,
{
    let len = v.len();
    let mut k: usize = 0;
    while k < len
        invariant
            k <= len,
            v@.len() == len,
            forall|m: int| 0 <= m < k ==> (#[trigger] v@[m]) == 0,
        decreases len - k,
    {
        v.set(k, 0);
        k = k + 1;
    }
}

/// Frequencies are corpus counts: nonnegative and below `FREQ_BOUND`.
pub proof fn lemma_freq_bound(c: Corpus, kind: NgramKind, l: Seq<usize>, ns: Nstroke)
    requires
        c.wf(),
        forall|p: int| 0 <= p < l.len() ==> (#[trigger] l[p]) < c.n(),
        crate::metric::positions_ok(ns, l.len() as int),
    ensures
        0 <= freq_for(c, kind, l, ns) < FREQ_BOUND,
{
    match ns {
        Nstroke::Monostroke(p0) => {
            assert(l[p0 as int] < c.n());
        },
        Nstroke::Bistroke(p0, p1) => {
            let c1 = l[p0 as int] as int;
            let c2 = l[p1 as int] as int;
            if c1 != 0 && c2 != 0 {
                crate::corpus::lemma_pack2_in_range(c.n(), c1, c2);
            }
        },
        Nstroke::Tristroke(p0, p1, p2) => {
            let c1 = l[p0 as int] as int;
            let c2 = l[p1 as int] as int;
            let c3 = l[p2 as int] as int;
            if c1 != 0 && c2 != 0 && c3 != 0 {
                crate::corpus::lemma_pack3_in_range(c.n(), c1, c2, c3);
            }
        },
    }
}

/// Every contribution term of a well-formed stroke is bounded by
/// `AMT_TERM_BOUND`.
pub proof fn lemma_all_amount_bounds(
    kinds: Seq<NgramKind>,
    c: Corpus,
    l: Seq<usize>,
    s: StrokeRec,
    m: int,
    mcount: int,
)
    requires
        c.wf(),
        forall|p: int| 0 <= p < l.len() ==> (#[trigger] l[p]) < c.n(),
        stroke_ok(s, mcount, kinds, l.len() as int),
    ensures
        forall|j: int|
            0 <= j < s.amounts.len() ==> -AMT_TERM_BOUND <= #[trigger] amount_fn(
                kinds,
                c,
                l,
                s,
                m,
            )(j) <= AMT_TERM_BOUND as int,
{
    assert forall|j: int| 0 <= j < s.amounts.len() implies -AMT_TERM_BOUND <= #[trigger] amount_fn(
        kinds,
        c,
        l,
        s,
        m,
    )(j) <= AMT_TERM_BOUND by {
        let am = s.amounts[j];
        if am.metric == m {
            lemma_freq_bound(c, kinds[m], l, s.nstroke);
            let f = freq_for(c, kinds[m], l, s.nstroke);
            assert(-AMT_TERM_BOUND <= (am.amount as int) * f <= AMT_TERM_BOUND) by (nonlinear_arith)
                requires
                    -1000000 <= am.amount <= 1000000,
                    0 <= f < FREQ_BOUND,
                    AMT_TERM_BOUND == 1000000 * FREQ_BOUND,
            ;
        }
    }
}

/// Every well-formed stroke's contribution to any metric is bounded by
/// `STROKE_BOUND`, under any compatible layout.
pub proof fn lemma_stroke_contrib_bound(
    kinds: Seq<NgramKind>,
    c: Corpus,
    l: Seq<usize>,
    s: StrokeRec,
    m: int,
    mcount: int,
)
    requires
        c.wf(),
        forall|p: int| 0 <= p < l.len() ==> (#[trigger] l[p]) < c.n(),
        stroke_ok(s, mcount, kinds, l.len() as int),
    ensures
        -STROKE_BOUND <= stroke_contrib(kinds, c, l, s, m) <= STROKE_BOUND,
{
    lemma_all_amount_bounds(kinds, c, l, s, m, mcount);
    lemma_sum_n_abs(s.amounts.len() as int, AMT_TERM_BOUND as int, amount_fn(kinds, c, l, s, m));
    assert((s.amounts.len() as int) * AMT_TERM_BOUND <= 1024 * AMT_TERM_BOUND) by (nonlinear_arith)
        requires
            0 <= s.amounts.len() <= 1024,
            AMT_TERM_BOUND > 0,
    ;
}

/// `lemma_stroke_contrib_bound` for every stroke of a list at once.
pub proof fn lemma_all_stroke_bounds(
    kinds: Seq<NgramKind>,
    c: Corpus,
    l: Seq<usize>,
    recs: Seq<StrokeRec>,
    mcount: int,
)
    requires
        c.wf(),
        forall|p: int| 0 <= p < l.len() ==> (#[trigger] l[p]) < c.n(),
        forall|i: int|
            0 <= i < recs.len() ==> stroke_ok(#[trigger] recs[i], mcount, kinds, l.len() as int),
    ensures
        forall|i: int, m: int|
            0 <= i < recs.len() ==> -STROKE_BOUND <= #[trigger] stroke_fn(kinds, c, l, recs, m)(i)
                <= STROKE_BOUND,
{
    assert forall|i: int, m: int| 0 <= i < recs.len() implies -STROKE_BOUND <= #[trigger] stroke_fn(
        kinds,
        c,
        l,
        recs,
        m,
    )(i) <= STROKE_BOUND by {
        lemma_stroke_contrib_bound(kinds, c, l, recs[i], m, mcount);
    }
}

/// The stat of any metric is bounded by `STAT_BOUND`.
pub proof fn lemma_stat_bound(
    kinds: Seq<NgramKind>,
    c: Corpus,
    l: Seq<usize>,
    recs: Seq<StrokeRec>,
    m: int,
    mcount: int,
)
    requires
        c.wf(),
        recs.len() <= MAX_STROKES,
        forall|p: int| 0 <= p < l.len() ==> (#[trigger] l[p]) < c.n(),
        forall|i: int|
            0 <= i < recs.len() ==> stroke_ok(#[trigger] recs[i], mcount, kinds, l.len() as int),
    ensures
        -STAT_BOUND <= stat_seq(kinds, c, l, recs, m) <= STAT_BOUND,
{
    lemma_all_stroke_bounds(kinds, c, l, recs, mcount);
    lemma_sum_n_abs(recs.len() as int, STROKE_BOUND as int, stroke_fn(kinds, c, l, recs, m));
    assert((recs.len() as int) * STROKE_BOUND <= (MAX_STROKES as int) * STROKE_BOUND)
        by (nonlinear_arith)
        requires
            0 <= recs.len() <= MAX_STROKES,
            STROKE_BOUND > 0,
    ;
}

/// The position-stroke index row of `p`, as integers, is the ascending
/// enumeration of exactly the strokes touching `p`.
pub proof fn lemma_row_int_props(md: MetricData, p: int)
    requires
        md.wf(),
        0 <= p < md.position_count(),
    ensures
        strictly_increasing(md.row_int(p)),
        forall|j: int|
            0 <= j < md.row_int(p).len() ==> 0 <= (#[trigger] md.row_int(p)[j])
                < md.strokes_view().len() && touches(
                md.strokes_view()[md.row_int(p)[j]].nstroke,
                p,
            ),
        forall|i: int|
            0 <= i < md.strokes_view().len() && #[trigger] touches(
                md.strokes_view()[i].nstroke,
                p,
            ) ==> md.row_int(p).contains(i),
{
    let q = md.row_int(p);
    let row = md.row(p);
    assert forall|j1: int, j2: int| 0 <= j1 < j2 < q.len() implies q[j1] < q[j2] by {
        assert(row[j1] < row[j2]);
    }
    assert forall|j: int| 0 <= j < q.len() implies 0 <= (#[trigger] q[j])
        < md.strokes_view().len() && touches(md.strokes_view()[q[j]].nstroke, p) by {
        assert(q[j] == row[j] as int);
        assert(row[j] < md.strokes@.len());
        assert(md.strokes_view()[q[j]] == md.strokes@[q[j]]@);
    }
    assert forall|i: int| 0 <= i < md.strokes_view().len() && #[trigger] touches(
        md.strokes_view()[i].nstroke,
        p,
    ) implies q.contains(i) by {
        assert(md.strokes_view()[i] == md.strokes@[i]@);
        assert(touches(md.strokes@[i].nstroke, p));
        assert(row.contains(i as usize));
        let idx = choose|idx: int| 0 <= idx < row.len() && row[idx] == i as usize;
        assert(q[idx] == i);
    }
}

/// Per-stroke swap deltas are bounded by twice the stroke bound.
pub proof fn lemma_all_delta_bounds(
    kinds: Seq<NgramKind>,
    c: Corpus,
    l: Seq<usize>,
    a: int,
    b: int,
    recs: Seq<StrokeRec>,
    mcount: int,
)
    requires
        c.wf(),
        0 <= a < l.len(),
        0 <= b < l.len(),
        forall|p: int| 0 <= p < l.len() ==> (#[trigger] l[p]) < c.n(),
        forall|i: int|
            0 <= i < recs.len() ==> stroke_ok(#[trigger] recs[i], mcount, kinds, l.len() as int),
    ensures
        forall|i: int, m: int|
            0 <= i < recs.len() ==> -(STROKE_BOUND as int) * 2 <= #[trigger] delta_fn(
                kinds,
                c,
                l,
                a,
                b,
                recs,
                m,
            )(i) <= (STROKE_BOUND as int) * 2,
        forall|i: int, m: int|
            0 <= i < recs.len() ==> -(STROKE_BOUND as int) * 2 <= #[trigger] delta_skip_fn(
                kinds,
                c,
                l,
                a,
                b,
                recs,
                m,
            )(i) <= (STROKE_BOUND as int) * 2,
{
    let lp = apply_swap(l, a, b);
    assert(lp.len() == l.len());
    assert forall|p: int| 0 <= p < lp.len() implies (#[trigger] lp[p]) < c.n() by {
        if p == b {
            assert(lp[p] == l[a]);
        } else if p == a {
            assert(lp[p] == l[b]);
        } else {
            assert(lp[p] == l[p]);
        }
    }
    assert forall|i: int, m: int| 0 <= i < recs.len() implies -(STROKE_BOUND as int) * 2
        <= #[trigger] delta_fn(kinds, c, l, a, b, recs, m)(i) <= (STROKE_BOUND as int) * 2 by {
        lemma_stroke_contrib_bound(kinds, c, l, recs[i], m, mcount);
        lemma_stroke_contrib_bound(kinds, c, lp, recs[i], m, mcount);
    }
    assert forall|i: int, m: int| 0 <= i < recs.len() implies -(STROKE_BOUND as int) * 2
        <= #[trigger] delta_skip_fn(kinds, c, l, a, b, recs, m)(i) <= (STROKE_BOUND as int)
        * 2 by {
        assert(delta_skip_fn(kinds, c, l, a, b, recs, m)(i) == 0 || delta_skip_fn(
            kinds,
            c,
            l,
            a,
            b,
            recs,
            m,
        )(i) == delta_fn(kinds, c, l, a, b, recs, m)(i));
    }
}

/// Appending one stroke record adds exactly its contribution to a stat.
pub proof fn lemma_stat_snoc(
    kinds: Seq<NgramKind>,
    c: Corpus,
    l: Seq<usize>,
    strokes: Seq<StrokeRec>,
    x: StrokeRec,
    m: int,
)
    ensures
        stat_seq(kinds, c, l, strokes.push(x), m) == stat_seq(kinds, c, l, strokes, m)
            + stroke_contrib(kinds, c, l, x, m),
{
    let s2 = strokes.push(x);
    let n = strokes.len() as int;
    assert(s2[n] == x);
    assert(stat_seq(kinds, c, l, s2, m) == sum_n(n, stroke_fn(kinds, c, l, s2, m)) + stroke_fn(
        kinds,
        c,
        l,
        s2,
        m,
    )(n));
    assert forall|i: int| 0 <= i < n implies #[trigger] stroke_fn(kinds, c, l, s2, m)(i)
        == stroke_fn(kinds, c, l, strokes, m)(i) by {
        assert(s2[i] == strokes[i]);
    }
    lemma_sum_n_ext(n, stroke_fn(kinds, c, l, s2, m), stroke_fn(kinds, c, l, strokes, m));
}

/// Filtering the stroke list to the records that reference a kept metric
/// preserves the stat of every kept metric: records that are dropped
/// contribute nothing to kept metrics.
pub proof fn lemma_filter_preserves_stat(
    kinds: Seq<NgramKind>,
    c: Corpus,
    l: Seq<usize>,
    strokes: Seq<StrokeRec>,
    keep: Seq<usize>,
    m: usize,
)
    requires
        keep.contains(m),
    ensures
        stat_seq(
            kinds,
            c,
            l,
            strokes.filter(crate::metric::kept_pred(keep)),
            m as int,
        ) == stat_seq(kinds, c, l, strokes, m as int),
    decreases strokes.len(),
{
    reveal_with_fuel(Seq::filter, 2);
    let pred = crate::metric::kept_pred(keep);
    if strokes.len() == 0 {
        assert(strokes.filter(pred) =~= Seq::<StrokeRec>::empty());
    } else {
        let s2 = strokes.drop_last();
        let last = strokes.last();
        lemma_filter_preserves_stat(kinds, c, l, s2, keep, m);
        assert(strokes =~= s2.push(last));
        lemma_stat_snoc(kinds, c, l, s2, last, m as int);
        if pred(last) {
            assert(strokes.filter(pred) == s2.filter(pred).push(last));
            lemma_stat_snoc(kinds, c, l, s2.filter(pred), last, m as int);
        } else {
            assert(strokes.filter(pred) == s2.filter(pred));
            assert(stroke_contrib(kinds, c, l, last, m as int) == 0) by {
                assert(!crate::metric::stroke_kept(last, keep));
                assert forall|j: int| 0 <= j < last.amounts.len() implies #[trigger] amount_fn(
                    kinds,
                    c,
                    l,
                    last,
                    m as int,
                )(j) == 0 by {
                    if last.amounts[j].metric == m {
                        assert(keep.contains(last.amounts[j].metric));
                    }
                }
                crate::sums::lemma_sum_n_zero(
                    last.amounts.len() as int,
                    amount_fn(kinds, c, l, last, m as int),
                );
            }
        }
    }
}

/// Swapping two positions that hold the same character code leaves every
/// stat unchanged: the swap delta of such a swap is the zero vector.
pub proof fn lemma_identity_swap_zero(an: Analyzer, l: Seq<usize>, a: int, b: int, m: int)
    requires
        0 <= a < l.len(),
        0 <= b < l.len(),
        l[a] == l[b],
    ensures
        an.stat(apply_swap(l, a, b), m) == an.stat(l, m),
{
    crate::layout::lemma_identity_swap(l, a, b);
}

/// A stroke whose nstroke touches neither swapped position contributes the
/// same under the swapped and the unswapped layout.
pub proof fn lemma_untouched_stroke(
    kinds: Seq<NgramKind>,
    c: Corpus,
    l: Seq<usize>,
    a: int,
    b: int,
    s: StrokeRec,
    m: int,
)
    requires
        0 <= a < l.len(),
        0 <= b < l.len(),
        !touches(s.nstroke, a),
        !touches(s.nstroke, b),
        crate::metric::positions_ok(s.nstroke, l.len() as int),
    ensures
        stroke_contrib(kinds, c, apply_swap(l, a, b), s, m) == stroke_contrib(kinds, c, l, s, m),
{
    let lp = apply_swap(l, a, b);
    assert(freq_for(c, kinds[m], lp, s.nstroke) == freq_for(c, kinds[m], l, s.nstroke)) by {
        match s.nstroke {
            Nstroke::Monostroke(p0) => {
                assert(lp[p0 as int] == l[p0 as int]);
            },
            Nstroke::Bistroke(p0, p1) => {
                assert(lp[p0 as int] == l[p0 as int]);
                assert(lp[p1 as int] == l[p1 as int]);
            },
            Nstroke::Tristroke(p0, p1, p2) => {
                assert(lp[p0 as int] == l[p0 as int]);
                assert(lp[p1 as int] == l[p1 as int]);
                assert(lp[p2 as int] == l[p2 as int]);
            },
        }
    }
    lemma_sum_n_ext(
        s.amounts.len() as int,
        amount_fn(kinds, c, lp, s, m),
        amount_fn(kinds, c, l, s, m),
    );
}

} // verus!
