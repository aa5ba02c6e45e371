//! Exactness tests for the metric engine: stats, swap deltas, filtering,
//! totals and percentages.

use keywhisker::analyzer::Analyzer;
use keywhisker::corpus::{Corpus, NgramKind};
use keywhisker::evaluator::Evaluator;
use keywhisker::layout::{Layout, Swap};
use keywhisker::metric::{
    filter_metrics, get_metric, MetricAmount, MetricData, MetricDescriptor, Nstroke, NstrokeData,
};
use keywhisker::EngineError;

/// A corpus over codes {0,1,2,3} where every ngram of nonzero codes has
/// frequency 1.
fn uniform_corpus() -> Corpus {
    let n = 4usize;
    let chars = vec![0u32, 1, 1, 1];
    let mut bigrams = vec![0u32; n * n];
    let mut skipgrams = vec![0u32; n * n];
    let mut trigrams = vec![0u32; n * n * n];
    for c1 in 1..n {
        for c2 in 1..n {
            bigrams[c1 * n + c2] = 1;
            skipgrams[c1 * n + c2] = 1;
            for c3 in 1..n {
                trigrams[c1 * n * n + c2 * n + c3] = 1;
            }
        }
    }
    Corpus::new(chars, bigrams, skipgrams, trigrams).unwrap()
}

/// A corpus over codes {0,..,10} where character `c` has frequency `c`
/// and two-grams have the product frequency `c1 * c2`.
fn weighted_corpus() -> Corpus {
    let n = 11usize;
    let mut chars = vec![0u32; n];
    let mut bigrams = vec![0u32; n * n];
    let skipgrams = vec![0u32; n * n];
    let trigrams = vec![0u32; n * n * n];
    for c in 1..n {
        chars[c] = c as u32;
    }
    for c1 in 1..n {
        for c2 in 1..n {
            bigrams[c1 * n + c2] = (c1 * c2) as u32;
        }
    }
    Corpus::new(chars, bigrams, skipgrams, trigrams).unwrap()
}

fn descriptor(name: &str, short: &str, kind: NgramKind) -> MetricDescriptor {
    MetricDescriptor { name: name.to_string(), short: short.to_string(), kind }
}

/// One monogram metric; position `p` contributes `p + 1` per unit of
/// character frequency.
fn position_weighted_data(position_count: usize) -> MetricData {
    let metrics = vec![descriptor("position weight", "pw", NgramKind::Monogram)];
    let mut strokes = Vec::new();
    for p in 0..position_count {
        strokes.push(NstrokeData {
            nstroke: Nstroke::Monostroke(p),
            amounts: vec![MetricAmount { metric: 0, amount: (p + 1) as i32 }],
        });
    }
    MetricData::new(metrics, strokes, position_count).unwrap()
}

/// Two metrics over a three-key board: a monogram count and a bigram
/// count over the two neighbor pairs.
fn two_metric_data() -> MetricData {
    let metrics = vec![
        descriptor("keys", "k", NgramKind::Monogram),
        descriptor("neighbors", "nb", NgramKind::Bigram),
    ];
    let strokes = vec![
        NstrokeData {
            nstroke: Nstroke::Monostroke(0),
            amounts: vec![MetricAmount { metric: 0, amount: 1 }],
        },
        NstrokeData {
            nstroke: Nstroke::Monostroke(1),
            amounts: vec![MetricAmount { metric: 0, amount: 1 }],
        },
        NstrokeData {
            nstroke: Nstroke::Monostroke(2),
            amounts: vec![MetricAmount { metric: 0, amount: 1 }],
        },
        NstrokeData {
            nstroke: Nstroke::Bistroke(0, 1),
            amounts: vec![MetricAmount { metric: 1, amount: 1 }],
        },
        NstrokeData {
            nstroke: Nstroke::Bistroke(1, 2),
            amounts: vec![MetricAmount { metric: 1, amount: 1 }],
        },
    ];
    MetricData::new(metrics, strokes, 3).unwrap()
}

#[test]
fn calc_stats_counts_uniform_corpus() {
    let analyzer = Analyzer::from(two_metric_data(), uniform_corpus());
    let layout = Layout(vec![1, 2, 3]);
    let stats = analyzer.calc_stats(&layout);
    assert_eq!(stats, vec![3, 2]);
}

#[test]
fn calc_stats_zero_code_contributes_nothing() {
    let analyzer = Analyzer::from(two_metric_data(), uniform_corpus());
    let layout = Layout(vec![1, 0, 3]);
    let stats = analyzer.calc_stats(&layout);
    assert_eq!(stats, vec![2, 0]);
}

#[test]
fn calc_stats_position_weights_exact() {
    let analyzer = Analyzer::from(position_weighted_data(10), weighted_corpus());
    let layout = Layout(vec![1, 2, 3, 4, 5, 6, 7, 8, 9, 10]);
    let stats = analyzer.calc_stats(&layout);
    // sum over p of (p + 1) * (p + 1) for p in 0..10
    assert_eq!(stats, vec![385]);
}

#[test]
fn swap_diff_matches_full_recompute() {
    let analyzer = Analyzer::from(position_weighted_data(10), weighted_corpus());
    let mut layout = Layout(vec![3, 1, 4, 2, 10, 6, 7, 8, 9, 5]);
    let mut before = analyzer.calc_stats(&layout);
    for (a, b) in [(0usize, 4usize), (1, 2), (3, 9), (5, 8)] {
        let swap = Swap::new(a, b);
        let mut diff = vec![0i128; before.len()];
        analyzer.swap_diff(&mut diff, &layout, &swap);
        layout.swap(&swap);
        let after = analyzer.calc_stats(&layout);
        for m in 0..before.len() {
            assert_eq!(after[m], before[m] + diff[m]);
        }
        before = after;
    }
}

#[test]
fn swap_diff_bigram_metric_exact_delta() {
    let analyzer = Analyzer::from(two_metric_data(), uniform_corpus());
    let layout = Layout(vec![1, 2, 0]);
    let swap = Swap::new(1, 2);
    let mut diff = vec![0i128; 2];
    analyzer.swap_diff(&mut diff, &layout, &swap);
    // before: keys 2, neighbors 1; after [1, 0, 2]: keys 2, neighbors 0.
    assert_eq!(diff, vec![0, -1]);
}

#[test]
fn identity_swap_gives_zero_vector() {
    let analyzer = Analyzer::from(two_metric_data(), uniform_corpus());
    // positions 0 and 2 hold the same code
    let layout = Layout(vec![2, 1, 2]);
    let swap = Swap::new(0, 2);
    let mut diff = vec![0i128; 2];
    analyzer.swap_diff(&mut diff, &layout, &swap);
    assert_eq!(diff, vec![0, 0]);
}

#[test]
fn swap_involution_restores_layout() {
    let mut layout = Layout(vec![5, 4, 3, 2, 1]);
    let swap = Swap::new(1, 3);
    layout.swap(&swap);
    assert_eq!(layout.0, vec![5, 2, 3, 4, 1]);
    layout.swap(&swap);
    assert_eq!(layout.0, vec![5, 4, 3, 2, 1]);
}

#[test]
fn filter_preserves_kept_metric_stats() {
    let corpus = uniform_corpus();
    let layout = Layout(vec![1, 2, 3]);
    let full = Analyzer::from(two_metric_data(), corpus);
    let before = full.calc_stats(&layout);
    let filtered = filter_metrics(two_metric_data(), &[1]);
    assert_eq!(filtered.strokes.len(), 2);
    let part = Analyzer::from(filtered, uniform_corpus());
    let after = part.calc_stats(&layout);
    assert_eq!(before[1], after[1]);
}

#[test]
fn filter_with_empty_keep_empties_strokes() {
    let filtered = filter_metrics(two_metric_data(), &[]);
    assert_eq!(filtered.strokes.len(), 0);
    assert_eq!(filtered.metrics.len(), 2);
    let analyzer = Analyzer::from(filtered, uniform_corpus());
    let stats = analyzer.calc_stats(&Layout(vec![3, 1, 2]));
    assert_eq!(stats, vec![0, 0]);
}

#[test]
fn metric_data_rejects_bad_records() {
    let metrics = vec![descriptor("keys", "k", NgramKind::Monogram)];
    // position out of range
    let out_of_range = vec![NstrokeData {
        nstroke: Nstroke::Monostroke(3),
        amounts: vec![MetricAmount { metric: 0, amount: 1 }],
    }];
    assert!(MetricData::new(metrics.clone(), out_of_range, 3).is_none());
    // empty contribution list
    let empty = vec![NstrokeData { nstroke: Nstroke::Monostroke(0), amounts: vec![] }];
    assert!(MetricData::new(metrics.clone(), empty, 3).is_none());
    // metric index out of range
    let bad_metric = vec![NstrokeData {
        nstroke: Nstroke::Monostroke(0),
        amounts: vec![MetricAmount { metric: 1, amount: 1 }],
    }];
    assert!(MetricData::new(metrics.clone(), bad_metric, 3).is_none());
    // arity mismatch: a monogram metric fed by a bistroke
    let mismatch = vec![NstrokeData {
        nstroke: Nstroke::Bistroke(0, 1),
        amounts: vec![MetricAmount { metric: 0, amount: 1 }],
    }];
    assert!(MetricData::new(metrics.clone(), mismatch, 3).is_none());
    // a valid record passes
    let good = vec![NstrokeData {
        nstroke: Nstroke::Monostroke(0),
        amounts: vec![MetricAmount { metric: 0, amount: 1 }],
    }];
    assert!(MetricData::new(metrics, good, 3).is_some());
}

#[test]
fn corpus_rejects_bad_shapes() {
    assert!(Corpus::new(vec![], vec![], vec![], vec![]).is_none());
    assert!(Corpus::new(vec![0, 1], vec![0; 3], vec![0; 4], vec![0; 8]).is_none());
    assert!(Corpus::new(vec![0, 1], vec![0; 4], vec![0; 4], vec![0; 8]).is_some());
}

#[test]
fn get_metric_matches_name_or_short_first_wins() {
    let data = two_metric_data();
    assert_eq!(get_metric("keys", &data), Ok(0));
    assert_eq!(get_metric("k", &data), Ok(0));
    assert_eq!(get_metric("neighbors", &data), Ok(1));
    assert_eq!(get_metric("nb", &data), Ok(1));
    assert_eq!(get_metric("unknown", &data), Err(EngineError::MetricNotFound));
}

#[test]
fn totals_and_percentage_exact() {
    let corpus = weighted_corpus();
    let layout = Layout(vec![1, 2, 3, 4, 5, 6, 7, 8, 9, 10]);
    let totals = layout.totals(&corpus);
    // chars total: 1 + 2 + ... + 10
    assert_eq!(totals.chars, 55);
    // bigram total: (1 + ... + 10)^2
    assert_eq!(totals.bigrams, 55 * 55);
    assert_eq!(totals.skipgrams, 0);
    // 100 * 11 / 55 percent, in thousandths of a percent
    assert_eq!(totals.percentage(11, NgramKind::Monogram), 20000);
    // the defined sentinel for an empty total
    assert_eq!(totals.percentage(123, NgramKind::Skipgram), 0);
    // a negative stat maps to a negative percentage
    assert_eq!(totals.percentage(-11, NgramKind::Monogram), -20000);
}

#[test]
fn percentage_stays_within_bounds_for_partial_counts() {
    let corpus = uniform_corpus();
    let layout = Layout(vec![1, 2, 3]);
    let totals = layout.totals(&corpus);
    assert_eq!(totals.chars, 3);
    for freq in 0..=3i128 {
        let pc = totals.percentage(freq, NgramKind::Monogram);
        assert!((0..=100000).contains(&pc));
    }
    assert_eq!(totals.percentage(3, NgramKind::Monogram), 100000);
}

#[test]
fn evaluator_construction_errors() {
    assert_eq!(Evaluator::new(vec![]).err(), Some(EngineError::EmptyMetricSet));
    assert_eq!(
        Evaluator::new(vec![(0, 5), (1, -5)]).err(),
        Some(EngineError::DegenerateWeights)
    );
    assert_eq!(
        Evaluator::new(vec![(0, -3)]).err(),
        Some(EngineError::DegenerateWeights)
    );
    assert!(Evaluator::new(vec![(0, 5), (1, -4)]).is_ok());
}

#[test]
fn evaluator_scores_weighted_sum() {
    let ev = Evaluator::new(vec![(0, 2), (1, -1)]).unwrap();
    assert_eq!(ev.weight_sum, 1);
    let stats = vec![10i128, 4];
    assert_eq!(ev.eval(&stats), 16);
}

#[test]
fn evaluator_is_linear_on_combinations() {
    let ev = Evaluator::new(vec![(0, 3), (1, 2)]).unwrap();
    let x = vec![7i128, -2];
    let y = vec![1i128, 5];
    let a = 4i128;
    let b = -3i128;
    let combo: Vec<i128> = (0..2).map(|i| a * x[i] + b * y[i]).collect();
    assert_eq!(ev.eval(&combo), a * ev.eval(&x) + b * ev.eval(&y));
}

#[test]
fn minimal_corpus_scores_nothing() {
    // only the reserved code exists; every slot is unpopulated
    let corpus = Corpus::new(vec![0], vec![0], vec![0], vec![0]).unwrap();
    let metrics = vec![descriptor("keys", "k", NgramKind::Monogram)];
    let strokes = vec![
        NstrokeData {
            nstroke: Nstroke::Monostroke(0),
            amounts: vec![MetricAmount { metric: 0, amount: 1 }],
        },
        NstrokeData {
            nstroke: Nstroke::Monostroke(1),
            amounts: vec![MetricAmount { metric: 0, amount: 1 }],
        },
    ];
    let data = MetricData::new(metrics, strokes, 2).unwrap();
    let analyzer = Analyzer::from(data, corpus);
    let layout = Layout(vec![0, 0]);
    assert_eq!(analyzer.calc_stats(&layout), vec![0]);
    let totals = layout.totals(&analyzer.corpus);
    assert_eq!(totals.chars, 0);
    assert_eq!(totals.percentage(0, NgramKind::Monogram), 0);
}

#[test]
fn evaluator_sums_repeated_metric_entries() {
    let ev = Evaluator::new(vec![(0, 1), (0, 2)]).unwrap();
    assert_eq!(ev.weight_sum, 3);
    assert_eq!(ev.eval(&vec![7i128, 100]), 21);
}
