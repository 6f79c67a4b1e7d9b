//! Randomness for the search drivers.  Every draw goes through one of the
//! small wrappers here; their contracts state only what holds of every
//! outcome, never which outcome comes back.

use vstd::prelude::*;

verus! {

/// The sum of a sequence of weights.
pub open spec fn spec_weight_sum(s: Seq<u64>) -> int
    decreases s.len(),
{
    if s.len() == 0 {
        0
    } else {
        spec_weight_sum(s.drop_last()) + s.last()
    }
}

/// The sum of bounded weights is bounded by count times the bound.
pub proof fn lemma_weight_sum_bound(s: Seq<u64>, bound: int)
    requires
        forall|i: int| 0 <= i < s.len() ==> #[trigger] s[i] <= bound,
    ensures
        spec_weight_sum(s) <= s.len() * bound,
        0 <= spec_weight_sum(s),
    decreases s.len(),
{
    if s.len() > 0 {
        lemma_weight_sum_bound(s.drop_last(), bound);
        assert((s.len() - 1) * bound + bound == s.len() * bound) by (nonlinear_arith);
    }
}

/// A single positive entry makes the whole sum positive.
pub proof fn lemma_weight_sum_pos(s: Seq<u64>, i: int)
    requires
        0 <= i < s.len(),
        s[i] > 0,
    ensures
        spec_weight_sum(s) > 0,
    decreases s.len(),
{
    lemma_weight_sum_bound(s, u64::MAX as int);
    if i == s.len() - 1 {
        lemma_weight_sum_bound(s.drop_last(), u64::MAX as int);
    } else {
        lemma_weight_sum_pos(s.drop_last(), i);
    }
}

/// Relies on rand's `thread_rng` and `Rng::gen_range`: returns a value
/// drawn from `0..bound`.  `gen_range` panics only on an empty range,
/// which the precondition rules out.
#[verifier::external_body]
pub(crate) fn rand_below(bound: u64) -> (r: u64)
    requires
        0 < bound,
    ensures
        r < bound,
{
    rand::Rng::gen_range(&mut rand::thread_rng(), 0..bound)
}

/// Relies on rand's `SliceRandom::shuffle` (with `thread_rng`): it permutes
/// the slice in place, so exactly the original elements remain.
#[verifier::external_body]
pub(crate) fn shuffle_nodes(v: &mut Vec<u32>)
    ensures
        final(v)@.to_multiset() == old(v)@.to_multiset(),
        final(v).len() == old(v).len(),
{
    rand::seq::SliceRandom::shuffle(v.as_mut_slice(), &mut rand::thread_rng())
}

/// Relies on rand's `WeightedIndex`: `new` returns `Ok` exactly when the
/// weights are nonempty, none is negative (always true of `u64`), and the
/// total is positive; the precondition also keeps the total from wrapping,
/// since `new` sums the weights with plain addition.  `sample` then returns
/// the index of an entry with positive weight.
#[verifier::external_body]
pub(crate) fn weighted_pick(weights: &Vec<u64>) -> (r: usize)
    requires
        weights.len() > 0,
        0 < spec_weight_sum(weights@) <= u64::MAX,
    ensures
        r < weights.len(),
        weights[r as int] > 0,
{
    let dist = rand::distributions::WeightedIndex::new(weights.iter()).unwrap();
    rand::distributions::Distribution::sample(&dist, &mut rand::thread_rng())
}

} // verus!
