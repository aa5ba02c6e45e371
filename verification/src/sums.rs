//! Finite sums over integer-valued index functions.
//!
//! Per-metric statistics, swap deltas, corpus totals and evaluator scores are
//! all finite sums; this module gives them one spec-level vocabulary and the
//! lemmas the engine's proofs lean on.

use vstd::prelude::*;

verus! {

/// Sum of `f(0) + f(1) + ... + f(n - 1)`; `0` when `n <= 0`.
pub open spec fn sum_n(n: int, f: spec_fn(int) -> int) -> int
    decreases n,
{
    if n <= 0 {
        0
    } else {
        sum_n(n - 1, f) + f(n - 1)
    }
}

/// Sum of `f` over the entries of the index list `q`.
pub open spec fn sum_idx(q: Seq<int>, f: spec_fn(int) -> int) -> int
    decreases q.len(),
{
    if q.len() == 0 {
        0
    } else {
        sum_idx(q.drop_last(), f) + f(q.last())
    }
}

/// `f` restricted to the indices satisfying `p`; `0` elsewhere.
pub open spec fn guarded(p: spec_fn(int) -> bool, f: spec_fn(int) -> int) -> spec_fn(
    int,
) -> int {
    |i: int| if p(i) { f(i) } else { 0 }
}

/// Index lists are read as strictly ascending enumerations.
pub open spec fn strictly_increasing(q: Seq<int>) -> bool {
    forall|j1: int, j2: int| 0 <= j1 < j2 < q.len() ==> q[j1] < q[j2]
}

/// Sums of pointwise-equal functions agree.
pub proof fn lemma_sum_n_ext(n: int, f: spec_fn(int) -> int, g: spec_fn(int) -> int)
    requires
        forall|i: int| 0 <= i < n ==> #[trigger] f(i) == g(i),
    ensures
        sum_n(n, f) == sum_n(n, g),
    decreases n,
{
    if n > 0 {
        lemma_sum_n_ext(n - 1, f, g);
    }
}

/// A pointwise-zero function sums to zero.
pub proof fn lemma_sum_n_zero(n: int, f: spec_fn(int) -> int)
    requires
        forall|i: int| 0 <= i < n ==> #[trigger] f(i) == 0,
    ensures
        sum_n(n, f) == 0,
    decreases n,
{
    if n > 0 {
        lemma_sum_n_zero(n - 1, f);
    }
}

/// Sums split pointwise: if `h = f + g` on `[0, n)`, the sums add.
pub proof fn lemma_sum_n_add(
    n: int,
    f: spec_fn(int) -> int,
    g: spec_fn(int) -> int,
    h: spec_fn(int) -> int,
)
    requires
        forall|i: int| 0 <= i < n ==> #[trigger] h(i) == f(i) + g(i),
    ensures
        sum_n(n, h) == sum_n(n, f) + sum_n(n, g),
    decreases n,
{
    if n > 0 {
        lemma_sum_n_add(n - 1, f, g, h);
    }
}

/// A constant factor moves out of a sum.
pub proof fn lemma_sum_n_scale(n: int, c: int, f: spec_fn(int) -> int, g: spec_fn(int) -> int)
    requires
        forall|i: int| 0 <= i < n ==> #[trigger] g(i) == c * f(i),
    ensures
        sum_n(n, g) == c * sum_n(n, f),
    decreases n,
{
    if n <= 0 {
        assert(c * 0 == 0) by (nonlinear_arith);
    } else {
        lemma_sum_n_scale(n - 1, c, f, g);
        let s = sum_n(n - 1, f);
        let t = f(n - 1);
        assert(c * s + c * t == c * (s + t)) by (nonlinear_arith);
    }
}

/// A sum of `n` terms, each within `[-b, b]`, lies within `[-n*b, n*b]`.
pub proof fn lemma_sum_n_abs(n: int, b: int, f: spec_fn(int) -> int)
    requires
        0 <= n,
        0 <= b,
        forall|i: int| 0 <= i < n ==> -b <= #[trigger] f(i) <= b,
    ensures
        -(n * b) <= sum_n(n, f) <= n * b,
    decreases n,
{
    if n > 0 {
        lemma_sum_n_abs(n - 1, b, f);
        assert((n - 1) * b + b == n * b) by (nonlinear_arith);
    } else {
        assert(n == 0);
        assert(0 * b == 0) by (nonlinear_arith);
    }
}

/// A sum over an index list, each term within `[-b, b]`, lies within
/// `[-len*b, len*b]`.
pub proof fn lemma_sum_idx_abs(q: Seq<int>, b: int, f: spec_fn(int) -> int)
    requires
        0 <= b,
        forall|j: int| 0 <= j < q.len() ==> -b <= #[trigger] f(q[j]) <= b,
    ensures
        -(q.len() * b) <= sum_idx(q, f) <= q.len() * b,
    decreases q.len(),
{
    if q.len() == 0 {
        assert(q.len() * b == 0) by (nonlinear_arith)
            requires
                q.len() == 0,
        ;
    } else {
        let q2 = q.drop_last();
        assert(forall|j: int| 0 <= j < q2.len() ==> q2[j] == q[j]);
        lemma_sum_idx_abs(q2, b, f);
        assert(q2.len() * b + b == q.len() * b) by (nonlinear_arith)
            requires
                q2.len() + 1 == q.len(),
        ;
    }
}

/// Extending a prefix of an index list by one entry adds that entry's term.
pub proof fn lemma_sum_idx_prefix_step(q: Seq<int>, j: int, f: spec_fn(int) -> int)
    requires
        0 <= j < q.len(),
    ensures
        sum_idx(q.subrange(0, j + 1), f) == sum_idx(q.subrange(0, j), f) + f(q[j]),
{
    let s1 = q.subrange(0, j + 1);
    assert(s1.drop_last() =~= q.subrange(0, j));
    assert(s1.last() == q[j]);
}

/// In a strictly ascending list each entry is at least its index; a list of
/// entries inside `[0, n)` therefore has at most `n` of them.
pub proof fn lemma_strictly_increasing_bounds(q: Seq<int>, n: int)
    requires
        0 <= n,
        strictly_increasing(q),
        forall|j: int| 0 <= j < q.len() ==> 0 <= #[trigger] q[j] < n,
    ensures
        q.len() <= n,
        forall|j: int| 0 <= j < q.len() ==> #[trigger] q[j] >= j,
    decreases q.len(),
{
    if q.len() > 0 {
        let q2 = q.drop_last();
        assert(forall|j: int| 0 <= j < q2.len() ==> q2[j] == q[j]);
        lemma_strictly_increasing_bounds(q2, n);
        assert(q[q.len() - 1] >= q.len() - 1) by {
            if q.len() >= 2 {
                assert(q[q.len() - 2] >= q.len() - 2);
                assert(q[q.len() - 2] < q[q.len() - 1]);
            }
        }
    }
}

/// A strictly ascending list that enumerates exactly the indices of `[0, n)`
/// satisfying `p` sums `f` to the guarded sum over the whole range.
pub proof fn lemma_sum_enum(q: Seq<int>, n: int, p: spec_fn(int) -> bool, f: spec_fn(int) -> int)
    requires
        strictly_increasing(q),
        forall|j: int| 0 <= j < q.len() ==> 0 <= #[trigger] q[j] < n && p(q[j]),
        forall|i: int| 0 <= i < n && #[trigger] p(i) ==> q.contains(i),
    ensures
        sum_idx(q, f) == sum_n(n, guarded(p, f)),
    decreases n,
{
    let gn = guarded(p, f);
    if n <= 0 {
        assert(q.len() == 0) by {
            if q.len() > 0 {
                assert(0 <= q[0] < n);
            }
        }
    } else {
        if p(n - 1) {
            assert(q.contains(n - 1));
            let j0 = choose|j: int| 0 <= j < q.len() && q[j] == n - 1;
            assert(q[q.len() - 1] == n - 1) by {
                if j0 < q.len() - 1 {
                    assert(q[j0] < q[q.len() - 1]);
                }
            }
            let q2 = q.drop_last();
            assert forall|j: int| 0 <= j < q2.len() implies 0 <= #[trigger] q2[j] < n - 1 && p(
                q2[j],
            ) by {
                assert(q2[j] == q[j]);
                assert(q[j] < q[q.len() - 1]);
            }
            assert forall|i: int| 0 <= i < n - 1 && #[trigger] p(i) implies q2.contains(i) by {
                assert(q.contains(i));
                let j = choose|j: int| 0 <= j < q.len() && q[j] == i;
                assert(j != q.len() - 1);
                assert(q2[j] == i);
            }
            lemma_sum_enum(q2, n - 1, p, f);
            assert(gn(n - 1) == f(n - 1));
        } else {
            assert forall|j: int| 0 <= j < q.len() implies 0 <= #[trigger] q[j] < n - 1 && p(
                q[j],
            ) by {
                if q[j] == n - 1 {
                    assert(p(n - 1));
                }
            }
            lemma_sum_enum(q, n - 1, p, f);
            assert(gn(n - 1) == 0);
        }
    }
}

} // verus!
