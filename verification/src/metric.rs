//! Metric descriptors and the position-indexed store of contribution
//! records.
//!
//! A `MetricData` holds the ordered metric descriptors, the ordered list of
//! stroke records ("nstrokes" with per-metric contribution amounts), and the
//! position-stroke index: for every keyboard position, the ascending list of
//! stroke indices whose nstroke touches that position. The index being the
//! exact transpose of the stroke list is what makes incremental swap deltas
//! both fast and provably equal to a full recomputation.

use vstd::prelude::*;

use crate::corpus::NgramKind;
use crate::{EngineError, MAX_AMOUNTS, MAX_METRICS, MAX_POSITIONS, MAX_STROKES};

verus! {

/// An ordered tuple of one to three keyboard positions naming a physical
/// key-press sequence.
#[derive(Clone, Copy, PartialEq, Eq, Structural, Debug)]
pub enum Nstroke {
    Monostroke(usize),
    Bistroke(usize, usize),
    Tristroke(usize, usize, usize),
}

/// Whether the nstroke reads keyboard position `p`.
pub open spec fn touches(ns: Nstroke, p: int) -> bool {
    match ns {
        Nstroke::Monostroke(p0) => p0 == p,
        Nstroke::Bistroke(p0, p1) => p0 == p || p1 == p,
        Nstroke::Tristroke(p0, p1, p2) => p0 == p || p1 == p || p2 == p,
    }
}

/// All of the nstroke's positions lie below `position_count`.
pub open spec fn positions_ok(ns: Nstroke, position_count: int) -> bool {
    match ns {
        Nstroke::Monostroke(p0) => p0 < position_count,
        Nstroke::Bistroke(p0, p1) => p0 < position_count && p1 < position_count,
        Nstroke::Tristroke(p0, p1, p2) => p0 < position_count && p1 < position_count && p2
            < position_count,
    }
}

/// A metric of some kind can only be fed by an nstroke of the matching
/// arity; bigrams and skipgrams share the two-key arity.
pub open spec fn kind_arity_matches(kind: NgramKind, ns: Nstroke) -> bool {
    match ns {
        Nstroke::Monostroke(_) => kind == NgramKind::Monogram,
        Nstroke::Bistroke(_, _) => kind == NgramKind::Bigram || kind == NgramKind::Skipgram,
        Nstroke::Tristroke(_, _, _) => kind == NgramKind::Trigram,
    }
}

/// One contribution: credit `amount` to metric `metric` whenever the
/// enclosing nstroke's positions spell an ngram with nonzero frequency.
#[derive(Clone, Copy, PartialEq, Eq, Structural, Debug)]
pub struct MetricAmount {
    pub metric: usize,
    pub amount: i32,
}

/// An nstroke together with its non-empty list of contributions.
#[derive(Clone, Debug)]
pub struct NstrokeData {
    pub nstroke: Nstroke,
    pub amounts: Vec<MetricAmount>,
}

/// The mathematical value of an `NstrokeData`.
pub struct StrokeRec {
    pub nstroke: Nstroke,
    pub amounts: Seq<MetricAmount>,
}

impl View for NstrokeData {
    type V = StrokeRec;

    open spec fn view(&self) -> StrokeRec {
        StrokeRec { nstroke: self.nstroke, amounts: self.amounts@ }
    }
}

/// A metric's name, short name and ngram kind.
#[derive(Clone, Debug)]
pub struct MetricDescriptor {
    pub name: String,
    pub short: String,
    pub kind: NgramKind,
}

/// A stroke record is well formed for a metric list of `metric_count`
/// metrics of the given kinds on a keyboard of `position_count` positions.
pub open spec fn stroke_ok(
    s: StrokeRec,
    metric_count: int,
    kinds: Seq<NgramKind>,
    position_count: int,
) -> bool {
    &&& positions_ok(s.nstroke, position_count)
    &&& 1 <= s.amounts.len() <= MAX_AMOUNTS
    &&& forall|j: int|
        0 <= j < s.amounts.len() ==> {
            &&& (#[trigger] s.amounts[j]).metric < metric_count
            &&& -1000000 <= s.amounts[j].amount <= 1000000
            &&& kind_arity_matches(kinds[s.amounts[j].metric as int], s.nstroke)
        }
}

/// A stroke record references at least one metric of `keep`.
pub open spec fn stroke_kept(s: StrokeRec, keep: Seq<usize>) -> bool {
    exists|j: int| 0 <= j < s.amounts.len() && keep.contains((#[trigger] s.amounts[j]).metric)
}

/// The keep predicate as a function value, for `Seq::filter`.
pub open spec fn kept_pred(keep: Seq<usize>) -> spec_fn(StrokeRec) -> bool {
    |s: StrokeRec| stroke_kept(s, keep)
}

/// A metric selector matches a descriptor on its name or its short name.
pub open spec fn selector_matches(d: MetricDescriptor, q: Seq<char>) -> bool {
    d.name@ == q || d.short@ == q
}

/// Metric descriptors, stroke records, and the position-stroke index.
pub struct MetricData {
    pub metrics: Vec<MetricDescriptor>,
    pub strokes: Vec<NstrokeData>,
    pub position_strokes: Vec<Vec<usize>>,
}

impl MetricData {
    /// Number of keyboard positions.
    pub open spec fn position_count(self) -> int {
        self.position_strokes@.len() as int
    }

    /// Number of metrics.
    pub open spec fn metric_count(self) -> int {
        self.metrics@.len() as int
    }

    /// The ngram kind of each metric, in metric order.
    pub open spec fn kinds(self) -> Seq<NgramKind> {
        self.metrics@.map_values(|d: MetricDescriptor| d.kind)
    }

    /// The mathematical value of the stroke list.
    pub open spec fn strokes_view(self) -> Seq<StrokeRec> {
        self.strokes@.map_values(|s: NstrokeData| s@)
    }

    /// The index row of position `p`.
    pub open spec fn row(self, p: int) -> Seq<usize> {
        self.position_strokes@[p]@
    }

    /// The index row of position `p`, as integers.
    pub open spec fn row_int(self, p: int) -> Seq<int> {
        self.row(p).map_values(|x: usize| x as int)
    }

    /// Every stroke record is well formed.
    pub open spec fn strokes_ok(self) -> bool {
        forall|i: int|
            0 <= i < self.strokes_view().len() ==> stroke_ok(
                #[trigger] self.strokes_view()[i],
                self.metric_count(),
                self.kinds(),
                self.position_count(),
            )
    }

    /// The position-stroke index is the exact transpose of the stroke
    /// list: row `p` is the ascending enumeration of the stroke indices
    /// whose nstroke touches `p`.
    pub open spec fn index_ok(self) -> bool {
        &&& forall|p: int, j1: int, j2: int|
            0 <= p < self.position_count() && 0 <= j1 < j2 < self.row(p).len()
                ==> #[trigger] self.row(p)[j1] < #[trigger] self.row(p)[j2]
        &&& forall|p: int, j: int|
            0 <= p < self.position_count() && 0 <= j < self.row(p).len() ==> {
                &&& (#[trigger] self.row(p)[j]) < self.strokes@.len()
                &&& touches(self.strokes@[self.row(p)[j] as int].nstroke, p)
            }
        &&& forall|i: int, p: int|
            0 <= i < self.strokes@.len() && 0 <= p < self.position_count()
                && #[trigger] touches(self.strokes@[i].nstroke, p) ==> self.row(p).contains(
                i as usize,
            )
    }

    /// Well-formedness of the whole store.
    pub open spec fn wf(self) -> bool {
        &&& self.metric_count() <= MAX_METRICS
        &&& self.strokes_view().len() <= MAX_STROKES
        &&& self.position_count() <= MAX_POSITIONS
        &&& self.strokes_ok()
        &&& self.index_ok()
    }

    /// Builds a store from descriptors and stroke records, validating every
    /// record and building the position-stroke index.
    ///
    /// Returns `None` exactly when a size bound is exceeded or some record
    /// is invalid: a position out of range, an empty or oversized
    /// contribution list, a metric index out of range, an amount beyond the
    /// supported magnitude, or a metric kind whose arity does not match its
    /// nstroke.
    pub fn new(
        metrics: Vec<MetricDescriptor>,
        strokes: Vec<NstrokeData>,
        position_count: usize,
    ) -> (r: Option<MetricData>)
        ensures
            r is Some <==> inputs_ok(
                metrics@.len() as int,
                metrics@.map_values(|d: MetricDescriptor| d.kind),
                strokes@.map_values(|s: NstrokeData| s@),
                position_count as int,
            ),
            r is Some ==> {
                &&& r->Some_0.wf()
                &&& r->Some_0.metrics == metrics
                &&& r->Some_0.strokes == strokes
                &&& r->Some_0.position_count() == position_count
            },
    {
        let ghost kinds = metrics@.map_values(|d: MetricDescriptor| d.kind);
        let ghost recs = strokes@.map_values(|s: NstrokeData| s@);
        if metrics.len() > MAX_METRICS || strokes.len() > MAX_STROKES || position_count
            > MAX_POSITIONS {
            return None;
        }
        let mut i: usize = 0;
        while i < strokes.len()
            invariant
                i <= strokes@.len(),
                kinds == metrics@.map_values(|d: MetricDescriptor| d.kind),
                recs == strokes@.map_values(|s: NstrokeData| s@),
                forall|k: int|
                    0 <= k < i ==> stroke_ok(
                        #[trigger] recs[k],
                        metrics@.len() as int,
                        kinds,
                        position_count as int,
                    ),
            decreases strokes@.len() - i,
        {
            let s = &strokes[i];
            proof {
                assert(recs[i as int] == strokes@[i as int]@);
            }
            if !positions_ok_exec(&s.nstroke, position_count) {
                proof {
                    assert(!stroke_ok(
                        recs[i as int],
                        metrics@.len() as int,
                        kinds,
                        position_count as int,
                    ));
                }
                return None;
            }
            if s.amounts.len() < 1 || s.amounts.len() > MAX_AMOUNTS {
                proof {
                    assert(!stroke_ok(
                        recs[i as int],
                        metrics@.len() as int,
                        kinds,
                        position_count as int,
                    ));
                }
                return None;
            }
            let mut j: usize = 0;
            while j < s.amounts.len()
                invariant
                    j <= s.amounts@.len(),
                    i < strokes@.len(),
                    recs == strokes@.map_values(|s: NstrokeData| s@),
                    s@ == recs[i as int],
                    kinds == metrics@.map_values(|d: MetricDescriptor| d.kind),
                    forall|jj: int|
                        0 <= jj < j ==> {
                            &&& (#[trigger] s.amounts@[jj]).metric < metrics@.len()
                            &&& -1000000 <= s.amounts@[jj].amount <= 1000000
                            &&& kind_arity_matches(kinds[s.amounts@[jj].metric as int], s.nstroke)
                        },
                decreases s.amounts@.len() - j,
            {
                let am = s.amounts[j];
                proof {
                    assert(recs[i as int].amounts[j as int] == am);
                }
                if am.metric >= metrics.len() {
                    proof {
                        assert(!stroke_ok(
                            recs[i as int],
                            metrics@.len() as int,
                            kinds,
                            position_count as int,
                        ));
                    }
                    return None;
                }
                if am.amount < -1000000 || am.amount > 1000000 {
                    proof {
                        assert(!stroke_ok(
                            recs[i as int],
                            metrics@.len() as int,
                            kinds,
                            position_count as int,
                        ));
                    }
                    return None;
                }
                if !kind_matches_exec(metrics[am.metric].kind, &s.nstroke) {
                    proof {
                        assert(kinds[am.metric as int] == metrics@[am.metric as int].kind);
                        assert(!stroke_ok(
                            recs[i as int],
                            metrics@.len() as int,
                            kinds,
                            position_count as int,
                        ));
                    }
                    return None;
                }
                j = j + 1;
            }
            proof {
                assert(recs[i as int] == strokes@[i as int]@);
            }
            i = i + 1;
        }
        let position_strokes = build_position_strokes(&strokes, position_count);
        Some(MetricData { metrics, strokes, position_strokes })
    }
}

/// All input conditions `MetricData::new` accepts.
pub open spec fn inputs_ok(
    metric_count: int,
    kinds: Seq<NgramKind>,
    recs: Seq<StrokeRec>,
    position_count: int,
) -> bool {
    &&& metric_count <= MAX_METRICS
    &&& recs.len() <= MAX_STROKES
    &&& position_count <= MAX_POSITIONS
    &&& forall|i: int|
        0 <= i < recs.len() ==> stroke_ok(#[trigger] recs[i], metric_count, kinds, position_count)
}

/// Whether the nstroke reads position `p`.
pub fn touches_exec(ns: &Nstroke, p: usize) -> (b: bool)
    ensures
        b == touches(*ns, p as int),
{
    match *ns {
        Nstroke::Monostroke(p0) => p0 == p,
        Nstroke::Bistroke(p0, p1) => p0 == p || p1 == p,
        Nstroke::Tristroke(p0, p1, p2) => p0 == p || p1 == p || p2 == p,
    }
}

/// Whether the nstroke's positions lie below `position_count`.
fn positions_ok_exec(ns: &Nstroke, position_count: usize) -> (b: bool)
    ensures
        b == positions_ok(*ns, position_count as int),
{
    match *ns {
        Nstroke::Monostroke(p0) => p0 < position_count,
        Nstroke::Bistroke(p0, p1) => p0 < position_count && p1 < position_count,
        Nstroke::Tristroke(p0, p1, p2) => p0 < position_count && p1 < position_count && p2
            < position_count,
    }
}

/// Whether a metric kind's arity matches the nstroke's.
fn kind_matches_exec(kind: NgramKind, ns: &Nstroke) -> (b: bool)
    ensures
        b == kind_arity_matches(kind, *ns),
{
    match *ns {
        Nstroke::Monostroke(_) => matches!(kind, NgramKind::Monogram),
        Nstroke::Bistroke(_, _) => matches!(kind, NgramKind::Bigram | NgramKind::Skipgram),
        Nstroke::Tristroke(_, _, _) => matches!(kind, NgramKind::Trigram),
    }
}

/// Builds the position-stroke index: for each position, the ascending list
/// of stroke indices touching it.
fn build_position_strokes(strokes: &Vec<NstrokeData>, position_count: usize) -> (ps: Vec<
    Vec<usize>,
>)
    ensures
        ps@.len() == position_count,
        forall|p: int, j1: int, j2: int|
            0 <= p < position_count && 0 <= j1 < j2 < ps@[p]@.len() ==> #[trigger] ps@[p]@[j1]
                < #[trigger] ps@[p]@[j2],
        forall|p: int, j: int|
            0 <= p < position_count && 0 <= j < ps@[p]@.len() ==> {
                &&& (#[trigger] ps@[p]@[j]) < strokes@.len()
                &&& touches(strokes@[ps@[p]@[j] as int].nstroke, p)
            },
        forall|i: int, p: int|
            0 <= i < strokes@.len() && 0 <= p < position_count && #[trigger] touches(
                strokes@[i].nstroke,
                p,
            ) ==> (#[trigger] ps@[p])@.contains(i as usize),
{
    let mut ps: Vec<Vec<usize>> = Vec::new();
    let mut p: usize = 0;
    while p < position_count
        invariant
            p <= position_count,
            ps@.len() == p,
            forall|pp: int, j1: int, j2: int|
                0 <= pp < p && 0 <= j1 < j2 < ps@[pp]@.len() ==> #[trigger] ps@[pp]@[j1]
                    < #[trigger] ps@[pp]@[j2],
            forall|pp: int, j: int|
                0 <= pp < p && 0 <= j < ps@[pp]@.len() ==> {
                    &&& (#[trigger] ps@[pp]@[j]) < strokes@.len()
                    &&& touches(strokes@[ps@[pp]@[j] as int].nstroke, pp)
                },
            forall|i: int, pp: int|
                0 <= i < strokes@.len() && 0 <= pp < p && #[trigger] touches(
                    strokes@[i].nstroke,
                    pp,
                ) ==> (#[trigger] ps@[pp])@.contains(i as usize),
        decreases position_count - p,
    {
        let mut row: Vec<usize> = Vec::new();
        let mut i: usize = 0;
        while i < strokes.len()
            invariant
                i <= strokes@.len(),
                forall|j: int|
                    0 <= j < row@.len() ==> (#[trigger] row@[j]) < i,
                forall|j: int, k: int| 0 <= j < k < row@.len() ==> row@[j] < row@[k],
                forall|j: int|
                    0 <= j < row@.len() ==> touches(
                        strokes@[(#[trigger] row@[j]) as int].nstroke,
                        p as int,
                    ),
                forall|ii: int|
                    0 <= ii < i && touches(strokes@[ii].nstroke, p as int) ==> row@.contains(
                        ii as usize,
                    ),
            decreases strokes@.len() - i,
        {
            let ghost old_row = row@;
            if touches_exec(&strokes[i].nstroke, p) {
                row.push(i);
                proof {
                    assert forall|ii: int|
                        0 <= ii < i + 1 && touches(strokes@[ii].nstroke, p as int) implies row@
                        .contains(ii as usize) by {
                        if ii < i {
                            assert(old_row.contains(ii as usize));
                            let idx = choose|idx: int|
                                0 <= idx < old_row.len() && old_row[idx] == ii as usize;
                            assert(row@[idx] == ii as usize);
                        } else {
                            assert(row@[row@.len() - 1] == i as usize);
                        }
                    }
                }
            }
            i = i + 1;
        }
        ps.push(row);
        p = p + 1;
    }
    ps
}

/// Retains only the stroke records that contribute to at least one metric
/// of `keep`, preserving their order, and rebuilds the position-stroke
/// index from the filtered list. Descriptors are untouched; contributions
/// to non-kept metrics inside a retained record are preserved.
pub fn filter_metrics(md: MetricData, keep: &[usize]) -> (r: MetricData)
    requires
        md.wf(),
    ensures
        r.wf(),
        r.metrics == md.metrics,
        r.position_count() == md.position_count(),
        r.strokes_view() == md.strokes_view().filter(kept_pred(keep@)),
{
    let mut kept: Vec<NstrokeData> = Vec::new();
    let mut i: usize = 0;
    while i < md.strokes.len()
        invariant
            md.wf(),
            i <= md.strokes@.len(),
            kept@.map_values(|s: NstrokeData| s@) == md.strokes_view().subrange(
                0,
                i as int,
            ).filter(kept_pred(keep@)),
            forall|k: int|
                0 <= k < kept@.len() ==> stroke_ok(
                    (#[trigger] kept@[k])@,
                    md.metric_count(),
                    md.kinds(),
                    md.position_count(),
                ),
        decreases md.strokes@.len() - i,
    {
        let ghost pre = md.strokes_view().subrange(0, i as int);
        let ghost cur = md.strokes_view()[i as int];
        proof {
            assert(md.strokes_view().subrange(0, i + 1).drop_last() =~= pre);
            assert(md.strokes_view().subrange(0, i + 1).last() == cur);
            reveal_with_fuel(Seq::filter, 2);
        }
        if stroke_is_kept(&md.strokes[i], keep) {
            let copy = copy_stroke(&md.strokes[i]);
            kept.push(copy);
            proof {
                assert(kept@.map_values(|s: NstrokeData| s@) =~= pre.filter(kept_pred(keep@)).push(
                    cur,
                ));
                assert(md.strokes_view().subrange(0, i + 1).filter(kept_pred(keep@)) == pre.filter(
                    kept_pred(keep@),
                ).push(cur));
            }
        } else {
            proof {
                assert(md.strokes_view().subrange(0, i + 1).filter(kept_pred(keep@)) == pre.filter(
                    kept_pred(keep@),
                ));
            }
        }
        i = i + 1;
    }
    proof {
        assert(md.strokes_view().subrange(0, md.strokes@.len() as int) =~= md.strokes_view());
    }
    let position_strokes = build_position_strokes(&kept, md.position_strokes.len());
    let r = MetricData { metrics: md.metrics, strokes: kept, position_strokes };
    proof {
        md.strokes_view().lemma_filter_len(kept_pred(keep@));
    }
    r
}

/// Whether the record contributes to a metric of `keep`.
fn stroke_is_kept(s: &NstrokeData, keep: &[usize]) -> (b: bool)
    ensures
        b == stroke_kept(s@, keep@),
{
    let mut j: usize = 0;
    while j < s.amounts.len()
        invariant
            j <= s.amounts@.len(),
            forall|jj: int|
                0 <= jj < j ==> !keep@.contains((#[trigger] s.amounts@[jj]).metric),
        decreases s.amounts@.len() - j,
    {
        if slice_contains(keep, s.amounts[j].metric) {
            proof {
                assert(0 <= j < s@.amounts.len());
                assert(keep@.contains(s@.amounts[j as int].metric));
            }
            return true;
        }
        j = j + 1;
    }
    false
}

/// Whether the slice holds the value.
fn slice_contains(keep: &[usize], x: usize) -> (b: bool)
    ensures
        b == keep@.contains(x),
{
    let mut k: usize = 0;
    while k < keep.len()
        invariant
            k <= keep@.len(),
            forall|kk: int| 0 <= kk < k ==> keep@[kk] != x,
        decreases keep@.len() - k,
    {
        if keep[k] == x {
            return true;
        }
        k = k + 1;
    }
    false
}

/// A value-equal copy of a stroke record.
fn copy_stroke(s: &NstrokeData) -> (r: NstrokeData)
    ensures
        r@ == s@,
{
    let mut amounts: Vec<MetricAmount> = Vec::new();
    let mut j: usize = 0;
    while j < s.amounts.len()
        invariant
            j <= s.amounts@.len(),
            amounts@ == s.amounts@.subrange(0, j as int),
        decreases s.amounts@.len() - j,
    {
        amounts.push(s.amounts[j]);
        proof {
            assert(amounts@ =~= s.amounts@.subrange(0, j + 1));
        }
        j = j + 1;
    }
    proof {
        assert(s.amounts@.subrange(0, s.amounts@.len() as int) =~= s.amounts@);
    }
    NstrokeData { nstroke: s.nstroke, amounts }
}

/// Resolves a metric selector against either the name or the short name of
/// each descriptor, first match winning; a selector that matches no
/// descriptor surfaces `MetricNotFound`.
pub fn get_metric(s: &str, data: &MetricData) -> (r: Result<usize, EngineError>)
    ensures
        match r {
            Ok(i) => {
                &&& i < data.metrics@.len()
                &&& selector_matches(data.metrics@[i as int], s@)
                &&& forall|k: int| 0 <= k < i ==> !selector_matches(#[trigger] data.metrics@[k], s@)
            },
            Err(e) => {
                &&& e == EngineError::MetricNotFound
                &&& forall|k: int|
                    0 <= k < data.metrics@.len() ==> !selector_matches(
                        #[trigger] data.metrics@[k],
                        s@,
                    )
            },
        },
{
    let key: String = s.to_owned();
    let mut i: usize = 0;
    while i < data.metrics.len()
        invariant
            key@ == s@,
            i <= data.metrics@.len(),
            forall|k: int| 0 <= k < i ==> !selector_matches(#[trigger] data.metrics@[k], s@),
        decreases data.metrics@.len() - i,
    {
        if data.metrics[i].name == key || data.metrics[i].short == key {
            return Ok(i);
        }
        i = i + 1;
    }
    Err(EngineError::MetricNotFound)
}

} // verus!
