//! Character-frequency corpus: ngram count tables and layout-restricted
//! totals.
//!
//! A corpus snapshot stores one count vector per ngram arity, indexed by
//! packed ngram code. Character code `0` is reserved for "no character" and
//! always has frequency `0`.

use vstd::prelude::*;

use crate::sums::{guarded, sum_n};
use crate::{MAX_CHARS, STAT_BOUND};

verus! {

/// One of the four ngram arities the corpus counts.
#[derive(Clone, Copy, PartialEq, Eq, Structural, Debug)]
pub enum NgramKind {
    Monogram,
    Bigram,
    Skipgram,
    Trigram,
}

/// An immutable snapshot of ngram counts.
///
/// `chars.len()` is the number of character codes `n`; the packed code of a
/// bigram `(c1, c2)` is `c1 * n + c2` and of a trigram `(c1, c2, c3)` is
/// `c1 * n * n + c2 * n + c3`. Skipgrams are two-character codes over their
/// own table.
pub struct Corpus {
    pub chars: Vec<u32>,
    pub bigrams: Vec<u32>,
    pub skipgrams: Vec<u32>,
    pub trigrams: Vec<u32>,
}

impl Corpus {
    /// Number of character codes, including the reserved code 0.
    pub open spec fn n(self) -> int {
        self.chars@.len() as int
    }

    /// Count vectors sized to their arity, with a bounded code space.
    pub open spec fn wf(self) -> bool {
        &&& 1 <= self.n() <= MAX_CHARS
        &&& self.bigrams@.len() == self.n() * self.n()
        &&& self.skipgrams@.len() == self.n() * self.n()
        &&& self.trigrams@.len() == self.n() * self.n() * self.n()
    }

    /// Frequency of the single character `c`; code 0 never counts.
    pub open spec fn mono_freq(self, c: int) -> int {
        if c == 0 {
            0
        } else {
            self.chars@[c] as int
        }
    }

    /// Frequency of the bigram `(c1, c2)`.
    pub open spec fn bi_freq(self, c1: int, c2: int) -> int {
        if c1 == 0 || c2 == 0 {
            0
        } else {
            self.bigrams@[c1 * self.n() + c2] as int
        }
    }

    /// Frequency of the skipgram `(c1, c2)`.
    pub open spec fn skip_freq(self, c1: int, c2: int) -> int {
        if c1 == 0 || c2 == 0 {
            0
        } else {
            self.skipgrams@[c1 * self.n() + c2] as int
        }
    }

    /// Frequency of the trigram `(c1, c2, c3)`.
    pub open spec fn tri_freq(self, c1: int, c2: int, c3: int) -> int {
        if c1 == 0 || c2 == 0 || c3 == 0 {
            0
        } else {
            self.trigrams@[c1 * self.n() * self.n() + c2 * self.n() + c3] as int
        }
    }

    /// Builds a corpus after checking the count-vector shape.
    ///
    /// Returns `None` exactly when the vectors do not describe a corpus of
    /// some supported size `n`.
    pub fn new(chars: Vec<u32>, bigrams: Vec<u32>, skipgrams: Vec<u32>, trigrams: Vec<u32>) -> (r:
        Option<Corpus>)
        ensures
            r is Some <==> (Corpus { chars, bigrams, skipgrams, trigrams }).wf(),
            r is Some ==> r->Some_0 == (Corpus { chars, bigrams, skipgrams, trigrams }),
    {
        let n = chars.len();
        if n < 1 || n > MAX_CHARS {
            return None;
        }
        proof {
            assert(n * n <= 1024 * 1024 && n * n * n <= 1024 * 1024 * 1024) by (nonlinear_arith)
                requires
                    1 <= n <= 1024,
            ;
        }
        let nn = n * n;
        let nnn = nn * n;
        if bigrams.len() != nn || skipgrams.len() != nn || trigrams.len() != nnn {
            return None;
        }
        Some(Corpus { chars, bigrams, skipgrams, trigrams })
    }

    /// Looks up the count of character `c`.
    pub fn unigram_freq(&self, c: usize) -> (f: u32)
        requires
            self.wf(),
            c < self.n(),
        ensures
            f as int == self.mono_freq(c as int),
    {
        if c == 0 {
            0
        } else {
            self.chars[c]
        }
    }

    /// Looks up the count of the bigram `(c1, c2)`.
    pub fn bigram_freq(&self, c1: usize, c2: usize) -> (f: u32)
        requires
            self.wf(),
            c1 < self.n(),
            c2 < self.n(),
        ensures
            f as int == self.bi_freq(c1 as int, c2 as int),
    {
        if c1 == 0 || c2 == 0 {
            0
        } else {
            let n = self.chars.len();
            proof {
                lemma_pack2_in_range(self.n(), c1 as int, c2 as int);
                let blen = self.bigrams@.len() as int;
                assert((c1 as int) * self.n() + (c2 as int) < blen);
            }
            self.bigrams[c1 * n + c2]
        }
    }

    /// Looks up the count of the skipgram `(c1, c2)`.
    pub fn skipgram_freq(&self, c1: usize, c2: usize) -> (f: u32)
        requires
            self.wf(),
            c1 < self.n(),
            c2 < self.n(),
        ensures
            f as int == self.skip_freq(c1 as int, c2 as int),
    {
        if c1 == 0 || c2 == 0 {
            0
        } else {
            let n = self.chars.len();
            proof {
                lemma_pack2_in_range(self.n(), c1 as int, c2 as int);
                let blen = self.skipgrams@.len() as int;
                assert((c1 as int) * self.n() + (c2 as int) < blen);
            }
            self.skipgrams[c1 * n + c2]
        }
    }

    /// Looks up the count of the trigram `(c1, c2, c3)`.
    pub fn trigram_freq(&self, c1: usize, c2: usize, c3: usize) -> (f: u32)
        requires
            self.wf(),
            c1 < self.n(),
            c2 < self.n(),
            c3 < self.n(),
        ensures
            f as int == self.tri_freq(c1 as int, c2 as int, c3 as int),
    {
        if c1 == 0 || c2 == 0 || c3 == 0 {
            0
        } else {
            let n = self.chars.len();
            proof {
                lemma_pack3_in_range(self.n(), c1 as int, c2 as int, c3 as int);
                lemma_pack2_in_range(self.n(), c1 as int, 0);
                let blen = self.trigrams@.len() as int;
                assert(((c1 as int) * self.n()) * self.n() + (c2 as int) * self.n() + (c3 as int)
                    < blen);
            }
            self.trigrams[(c1 * n) * n + c2 * n + c3]
        }
    }
}

/// Packed two-character codes stay inside the `n * n` table.
pub proof fn lemma_pack2_in_range(n: int, c1: int, c2: int)
    requires
        0 <= c1 < n,
        0 <= c2 < n,
    ensures
        0 <= c1 * n + c2 < n * n,
        n <= 1024 ==> c1 * n + c2 < 1048576,
{
    assert(c1 * n + c2 < n * n) by (nonlinear_arith)
        requires
            0 <= c1 < n,
            0 <= c2 < n,
    ;
    assert(0 <= c1 * n) by (nonlinear_arith)
        requires
            0 <= c1,
            0 <= n,
    ;
    if n <= 1024 {
        assert(n * n <= 1048576) by (nonlinear_arith)
            requires
                0 <= n <= 1024,
        ;
    }
}

/// Packed three-character codes stay inside the `n * n * n` table.
pub proof fn lemma_pack3_in_range(n: int, c1: int, c2: int, c3: int)
    requires
        0 <= c1 < n,
        0 <= c2 < n,
        0 <= c3 < n,
    ensures
        0 <= (c1 * n) * n + c2 * n + c3 < n * n * n,
        (c1 * n) * n + c2 * n + c3 == c1 * n * n + c2 * n + c3,
        n <= 1024 ==> (c1 * n) * n + c2 * n + c3 < 1073741824,
{
    assert((c1 * n) * n + c2 * n + c3 < n * n * n) by (nonlinear_arith)
        requires
            0 <= c1 < n,
            0 <= c2 < n,
            0 <= c3 < n,
    ;
    assert(0 <= (c1 * n) * n && 0 <= c2 * n) by (nonlinear_arith)
        requires
            0 <= c1,
            0 <= c2,
            0 <= n,
    ;
    assert((c1 * n) * n == c1 * n * n) by (nonlinear_arith);
    if n <= 1024 {
        assert(n * n * n <= 1073741824) by (nonlinear_arith)
            requires
                0 <= n <= 1024,
        ;
    }
}

/// A character code is populated when some layout slot holds it; the
/// reserved code 0 never counts as populated.
pub open spec fn populated(l: Seq<usize>, c: int) -> bool {
    c != 0 && exists|p: int| 0 <= p < l.len() && l[p] == c
}

/// Sum of single-character counts over the populated codes.
pub open spec fn chars_total_spec(corpus: Corpus, l: Seq<usize>) -> int {
    sum_n(
        corpus.n(),
        guarded(|c: int| populated(l, c), |c: int| corpus.chars@[c] as int),
    )
}

/// Sum of bigram counts over pairs of populated codes.
pub open spec fn bigrams_total_spec(corpus: Corpus, l: Seq<usize>) -> int {
    let n = corpus.n();
    sum_n(
        n * n,
        guarded(
            |k: int| populated(l, k / n) && populated(l, k % n),
            |k: int| corpus.bigrams@[k] as int,
        ),
    )
}

/// Sum of skipgram counts over pairs of populated codes.
pub open spec fn skipgrams_total_spec(corpus: Corpus, l: Seq<usize>) -> int {
    let n = corpus.n();
    sum_n(
        n * n,
        guarded(
            |k: int| populated(l, k / n) && populated(l, k % n),
            |k: int| corpus.skipgrams@[k] as int,
        ),
    )
}

/// Sum of trigram counts over triples of populated codes.
pub open spec fn trigrams_total_spec(corpus: Corpus, l: Seq<usize>) -> int {
    let n = corpus.n();
    sum_n(
        n * n * n,
        guarded(
            |k: int| populated(l, k / (n * n)) && populated(l, (k / n) % n) && populated(
                l,
                k % n,
            ),
            |k: int| corpus.trigrams@[k] as int,
        ),
    )
}

/// The four per-kind totals of a corpus restricted to one layout's
/// populated characters; the denominators of `percentage`.
pub struct LayoutTotals {
    pub chars: u64,
    pub bigrams: u64,
    pub skipgrams: u64,
    pub trigrams: u64,
}

/// What `percentage` returns: `100 * freq / total` in thousandths of a
/// percent, truncated toward zero, with `0` as the defined answer for an
/// empty total.
pub open spec fn percent_of(total: int, freq: int) -> int {
    if total == 0 {
        0
    } else if freq >= 0 {
        (100000 * freq) / total
    } else {
        -((100000 * (-freq)) / total)
    }
}

impl LayoutTotals {
    /// The stored total for one ngram kind.
    pub open spec fn total_of(self, kind: NgramKind) -> int {
        match kind {
            NgramKind::Monogram => self.chars as int,
            NgramKind::Bigram => self.bigrams as int,
            NgramKind::Skipgram => self.skipgrams as int,
            NgramKind::Trigram => self.trigrams as int,
        }
    }

    /// Converts a raw frequency-weighted stat to thousandths of a percent
    /// of the total of its ngram kind.
    pub fn percentage(&self, freq: i128, kind: NgramKind) -> (r: i128)
        requires
            -STAT_BOUND <= freq <= STAT_BOUND,
            self.total_of(kind) <= STAT_BOUND,
        ensures
            r == percent_of(self.total_of(kind), freq as int),
    {
        let total: i128 = match kind {
            NgramKind::Monogram => self.chars as i128,
            NgramKind::Bigram => self.bigrams as i128,
            NgramKind::Skipgram => self.skipgrams as i128,
            NgramKind::Trigram => self.trigrams as i128,
        };
        if total == 0 {
            0
        } else if freq >= 0 {
            (100000 * freq) / total
        } else {
            -((100000 * (-freq)) / total)
        }
    }
}

/// A stat between zero and its kind's total maps into `[0 %, 100 %]`.
pub proof fn lemma_percentage_bound(total: int, freq: int)
    requires
        0 <= freq <= total,
    ensures
        0 <= percent_of(total, freq) <= 100000,
{
    if total != 0 {
        assert(0 <= (100000 * freq) / total <= 100000) by (nonlinear_arith)
            requires
                0 < total,
                0 <= freq <= total,
        ;
    }
}

} // verus!
