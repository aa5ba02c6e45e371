//! Layouts and swaps.
//!
//! A layout is an ordered sequence of character codes indexed by keyboard
//! position; a swap exchanges the codes of two distinct positions. The
//! search drivers mutate a layout only through swaps.

use vstd::prelude::*;

use crate::corpus::{
    bigrams_total_spec, chars_total_spec, populated, skipgrams_total_spec, trigrams_total_spec,
    Corpus, LayoutTotals,
};
use crate::sums::{guarded, lemma_sum_n_abs, sum_n};

verus! {

/// An ordered sequence of character codes, one per keyboard position.
#[derive(Clone, PartialEq, Eq, Debug)]
pub struct Layout(pub Vec<usize>);

/// An unordered pair of distinct positions whose codes a swap exchanges.
#[derive(Clone, Copy, PartialEq, Eq, Structural, Debug)]
pub struct Swap {
    pub a: usize,
    pub b: usize,
}

impl View for Layout {
    type V = Seq<usize>;

    open spec fn view(&self) -> Seq<usize> {
        self.0@
    }
}

/// The sequence after exchanging the codes at positions `a` and `b`.
pub open spec fn apply_swap(l: Seq<usize>, a: int, b: int) -> Seq<usize> {
    l.update(a, l[b]).update(b, l[a])
}

impl Swap {
    /// Both positions lie in a layout of length `len`, and differ.
    pub open spec fn wf(self, len: int) -> bool {
        self.a < len && self.b < len && self.a != self.b
    }

    /// Pairs two positions.
    pub fn new(a: usize, b: usize) -> (s: Swap)
        ensures
            s.a == a && s.b == b,
    {
        Swap { a, b }
    }
}

impl Layout {
    /// Every code addresses the corpus's code space `[0, n)`.
    pub open spec fn valid(self, n: int) -> bool {
        forall|p: int| 0 <= p < self@.len() ==> self@[p] < n
    }

    /// Exchanges the codes at the swap's two positions.
    pub fn swap(&mut self, swap: &Swap)
        requires
            swap.wf(old(self)@.len() as int),
        ensures
            final(self)@ == apply_swap(old(self)@, swap.a as int, swap.b as int),
    {
        let va = self.0[swap.a];
        let vb = self.0[swap.b];
        self.0.set(swap.a, vb);
        self.0.set(swap.b, va);
    }

    /// Sums the corpus's counts over this layout's populated characters,
    /// once per ngram kind.
    pub fn totals(&self, corpus: &Corpus) -> (t: LayoutTotals)
        requires
            corpus.wf(),
            self.valid(corpus.n()),
        ensures
            t.chars as int == chars_total_spec(*corpus, self@),
            t.bigrams as int == bigrams_total_spec(*corpus, self@),
            t.skipgrams as int == skipgrams_total_spec(*corpus, self@),
            t.trigrams as int == trigrams_total_spec(*corpus, self@),
    {
        let n = corpus.chars.len();
        let present = self.presence(n);
        let nn = corpus.bigrams.len();
        let nnn = corpus.trigrams.len();
        let ghost fc = guarded(
            |c: int| populated(self@, c),
            |c: int| corpus.chars@[c] as int,
        );
        let ghost fb = guarded(
            |k: int| populated(self@, k / corpus.n()) && populated(self@, k % corpus.n()),
            |k: int| corpus.bigrams@[k] as int,
        );
        let ghost fs = guarded(
            |k: int| populated(self@, k / corpus.n()) && populated(self@, k % corpus.n()),
            |k: int| corpus.skipgrams@[k] as int,
        );
        let ghost ft = guarded(
            |k: int| populated(self@, k / (corpus.n() * corpus.n())) && populated(
                self@,
                (k / corpus.n()) % corpus.n(),
            ) && populated(self@, k % corpus.n()),
            |k: int| corpus.trigrams@[k] as int,
        );

        let mut chars_t: u64 = 0;
        let mut k: usize = 0;
        while k < n
            invariant
                corpus.wf(),
                n == corpus.n(),
                k <= n,
                present@.len() == n,
                forall|c: int| 0 <= c < n ==> present@[c] == populated(self@, c),
                chars_t as int == sum_n(k as int, fc),
                fc == guarded(
                    |c: int| populated(self@, c),
                    |c: int| corpus.chars@[c] as int,
                ),
            decreases n - k,
        {
            proof {
                lemma_sum_n_abs(k as int, 4294967295, fc);
            }
            if present[k] {
                chars_t = chars_t + corpus.chars[k] as u64;
            }
            k = k + 1;
        }

        let mut bigrams_t: u64 = 0;
        let mut k: usize = 0;
        while k < nn
            invariant
                corpus.wf(),
                n == corpus.n(),
                nn == corpus.bigrams@.len(),
                k <= nn,
                present@.len() == n,
                forall|c: int| 0 <= c < n ==> present@[c] == populated(self@, c),
                bigrams_t as int == sum_n(k as int, fb),
                fb == guarded(
                    |k: int| populated(self@, k / corpus.n()) && populated(
                        self@,
                        k % corpus.n(),
                    ),
                    |k: int| corpus.bigrams@[k] as int,
                ),
            decreases nn - k,
        {
            proof {
                lemma_sum_n_abs(k as int, 4294967295, fb);
                assert((n as int) * (n as int) <= 1048576) by (nonlinear_arith)
                    requires
                        1 <= n <= 1024,
                ;
                assert(0 <= (k as int) / (n as int) < n && 0 <= (k as int) % (n as int)
                    < n) by (nonlinear_arith)
                    requires
                        1 <= n,
                        0 <= k < n * n,
                ;
            }
            let c1 = k / n;
            let c2 = k % n;
            if present[c1] && present[c2] {
                bigrams_t = bigrams_t + corpus.bigrams[k] as u64;
            }
            k = k + 1;
        }

        let mut skipgrams_t: u64 = 0;
        let mut k: usize = 0;
        while k < nn
            invariant
                corpus.wf(),
                n == corpus.n(),
                nn == corpus.skipgrams@.len(),
                k <= nn,
                present@.len() == n,
                forall|c: int| 0 <= c < n ==> present@[c] == populated(self@, c),
                skipgrams_t as int == sum_n(k as int, fs),
                fs == guarded(
                    |k: int| populated(self@, k / corpus.n()) && populated(
                        self@,
                        k % corpus.n(),
                    ),
                    |k: int| corpus.skipgrams@[k] as int,
                ),
            decreases nn - k,
        {
            proof {
                lemma_sum_n_abs(k as int, 4294967295, fs);
                assert((n as int) * (n as int) <= 1048576) by (nonlinear_arith)
                    requires
                        1 <= n <= 1024,
                ;
                assert(0 <= (k as int) / (n as int) < n && 0 <= (k as int) % (n as int)
                    < n) by (nonlinear_arith)
                    requires
                        1 <= n,
                        0 <= k < n * n,
                ;
            }
            let c1 = k / n;
            let c2 = k % n;
            if present[c1] && present[c2] {
                skipgrams_t = skipgrams_t + corpus.skipgrams[k] as u64;
            }
            k = k + 1;
        }

        let mut trigrams_t: u64 = 0;
        let mut k: usize = 0;
        while k < nnn
            invariant
                corpus.wf(),
                n == corpus.n(),
                nnn == corpus.trigrams@.len(),
                k <= nnn,
                present@.len() == n,
                forall|c: int| 0 <= c < n ==> present@[c] == populated(self@, c),
                trigrams_t as int == sum_n(k as int, ft),
                ft == guarded(
                    |k: int| populated(self@, k / (corpus.n() * corpus.n())) && populated(
                        self@,
                        (k / corpus.n()) % corpus.n(),
                    ) && populated(self@, k % corpus.n()),
                    |k: int| corpus.trigrams@[k] as int,
                ),
            decreases nnn - k,
        {
            proof {
                lemma_sum_n_abs(k as int, 4294967295, ft);
                assert((n as int) * (n as int) <= 1048576 && (n as int) * (n as int) * (
                n as int) <= 1073741824) by (nonlinear_arith)
                    requires
                        1 <= n <= 1024,
                ;
                assert(0 <= (k as int) / ((n as int) * (n as int)) < n) by (nonlinear_arith)
                    requires
                        1 <= n,
                        0 <= k < n * n * n,
                ;
                assert(0 <= ((k as int) / (n as int)) % (n as int) < n && 0 <= (
                k as int) % (n as int) < n) by (nonlinear_arith)
                    requires
                        1 <= n,
                        0 <= k,
                ;
            }
            let nn2 = n * n;
            let c1 = k / nn2;
            let c2 = (k / n) % n;
            let c3 = k % n;
            if present[c1] && present[c2] && present[c3] {
                trigrams_t = trigrams_t + corpus.trigrams[k] as u64;
            }
            k = k + 1;
        }

        LayoutTotals {
            chars: chars_t,
            bigrams: bigrams_t,
            skipgrams: skipgrams_t,
            trigrams: trigrams_t,
        }
    }

    /// A value-equal copy, for drivers that mutate a clone of the seed.
    pub fn duplicate(&self) -> (r: Layout)
        ensures
            r@ == self@,
    {
        let mut codes: Vec<usize> = Vec::new();
        let mut p: usize = 0;
        while p < self.0.len()
            invariant
                p <= self@.len(),
                codes@ == self@.subrange(0, p as int),
            decreases self@.len() - p,
        {
            codes.push(self.0[p]);
            proof {
                assert(codes@ =~= self@.subrange(0, p + 1));
            }
            p = p + 1;
        }
        proof {
            assert(self@.subrange(0, self@.len() as int) =~= self@);
        }
        Layout(codes)
    }

    /// One flag per character code: whether some slot holds it.
    fn presence(&self, n: usize) -> (present: Vec<bool>)
        requires
            self.valid(n as int),
        ensures
            present@.len() == n,
            forall|c: int| 0 <= c < n ==> present@[c] == populated(self@, c),
    {
        let mut present: Vec<bool> = Vec::new();
        let mut c: usize = 0;
        while c < n
            invariant
                c <= n,
                present@.len() == c,
                forall|i: int| 0 <= i < c ==> !present@[i],
            decreases n - c,
        {
            present.push(false);
            c = c + 1;
        }
        let mut p: usize = 0;
        while p < self.0.len()
            invariant
                self.valid(n as int),
                p <= self@.len(),
                present@.len() == n,
                forall|c: int|
                    0 <= c < n ==> present@[c] == (c != 0 && exists|q: int|
                        0 <= q < p && self@[q] == c),
            decreases self@.len() - p,
        {
            let code = self.0[p];
            if code != 0 {
                present.set(code, true);
            }
            p = p + 1;
        }
        proof {
            assert forall|c: int| 0 <= c < n implies present@[c] == populated(self@, c) by {
                if populated(self@, c) {
                    let q = choose|q: int| 0 <= q < self@.len() && self@[q] == c;
                    assert(0 <= q < self@.len() && self@[q] == c);
                }
            }
        }
        present
    }
}

/// Applying the same swap twice restores the layout.
pub proof fn lemma_swap_involution(l: Seq<usize>, a: int, b: int)
    requires
        0 <= a < l.len(),
        0 <= b < l.len(),
    ensures
        apply_swap(apply_swap(l, a, b), a, b) == l,
{
    assert(apply_swap(apply_swap(l, a, b), a, b) =~= l);
}

/// Swapping two positions that hold the same code changes nothing.
pub proof fn lemma_identity_swap(l: Seq<usize>, a: int, b: int)
    requires
        0 <= a < l.len(),
        0 <= b < l.len(),
        l[a] == l[b],
    ensures
        apply_swap(l, a, b) == l,
{
    assert(apply_swap(l, a, b) =~= l);
}

/// A swap permutes the layout: the multiset of codes is unchanged.
pub proof fn lemma_swap_multiset(l: Seq<usize>, a: int, b: int)
    requires
        0 <= a < l.len(),
        0 <= b < l.len(),
    ensures
        apply_swap(l, a, b).to_multiset() == l.to_multiset(),
{
    broadcast use vstd::seq_lib::group_to_multiset_ensures;

    let l1 = l.update(a, l[b]);
    assert(l.contains(l[a]));
    assert(l.to_multiset().count(l[a]) > 0);
    assert(l1.to_multiset() == l.to_multiset().insert(l[b]).remove(l[a]));
    assert(l.contains(l[b]));
    assert(l.to_multiset().count(l[b]) > 0);
    assert(apply_swap(l, a, b).to_multiset() == l1.to_multiset().insert(l[a]).remove(l1[b]));
    if a == b {
        assert(apply_swap(l, a, b).to_multiset() =~= l.to_multiset());
    } else {
        assert(l1[b] == l[b]);
        assert(apply_swap(l, a, b).to_multiset() =~= l.to_multiset());
    }
}

} // verus!
