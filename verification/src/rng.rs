//! Randomness for the search drivers.
//!
//! Every driver draws its randomness from a caller-supplied
//! `rand::rngs::StdRng` — one generator per search worker, seeded by the
//! caller from entropy or from a fixed test seed. Only the one range
//! wrapper below is trusted; everything that consumes a drawn value is
//! verified for every outcome the wrapper's contract admits.

use vstd::prelude::*;

use crate::layout::{Layout, Swap};

verus! {

#[verifier::external_type_specification]
#[verifier::external_body]
pub struct ExStdRng(rand::rngs::StdRng);

/// Relies on rand's `Rng::gen_range` over `0..n`: returns a uniformly
/// drawn value of that range, and panics only on an empty range, which
/// the precondition rules out. Nothing is assumed about which value comes
/// back.
#[verifier::external_body]
pub(crate) fn rng_below(rng: &mut rand::rngs::StdRng, n: u64) -> (r: u64)
    requires
        n >= 1,
    ensures
        r < n,
{
    rand::Rng::gen_range(rng, 0..n)
}

/// Shuffles the positions `[pin, len)` of the layout in place by uniform
/// transpositions; positions `[0, pin)` never move, and the codes are
/// permuted: their multiset is unchanged.
pub fn shuffle_tail(layout: &mut Layout, pin: usize, rng: &mut rand::rngs::StdRng)
    requires
        pin <= old(layout)@.len(),
    ensures
        final(layout)@.len() == old(layout)@.len(),
        forall|i: int| 0 <= i < pin ==> final(layout)@[i] == old(layout)@[i],
        final(layout)@.to_multiset() == old(layout)@.to_multiset(),
        forall|p: int|
            0 <= p < final(layout)@.len() ==> old(layout)@.contains(#[trigger] final(layout)@[p]),
{
    let ghost orig = layout@;
    let len = layout.0.len();
    if pin < len {
        let mut i: usize = len - 1;
        while i > pin
            invariant
                pin <= layout@.len(),
                layout@.len() == orig.len(),
                len == layout@.len(),
                pin <= i < len,
                forall|k: int| 0 <= k < pin ==> layout@[k] == orig[k],
                layout@.to_multiset() == orig.to_multiset(),
            decreases i,
        {
            let span = (i - pin + 1) as u64;
            let j = pin + rng_below(rng, span) as usize;
            if j != i {
                let swap = Swap { a: j, b: i };
                proof {
                    crate::layout::lemma_swap_multiset(layout@, j as int, i as int);
                }
                layout.swap(&swap);
            }
            i = i - 1;
        }
    }
    proof {
        broadcast use vstd::seq_lib::group_to_multiset_ensures;

        assert forall|p: int| 0 <= p < layout@.len() implies orig.contains(
            #[trigger] layout@[p],
        ) by {
            assert(layout@.to_multiset().count(layout@[p]) > 0);
            assert(orig.to_multiset().count(layout@[p]) > 0);
        }
    }
}

} // verus!
