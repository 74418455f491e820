//! The solver's two random draws, made through the `rand` crate: a
//! uniform pick among tied cells and a frequency-weighted pick among a
//! cell's options.

use vstd::prelude::*;
use rand::distr::weighted::WeightedIndex;
use rand::distr::Distribution;
use rand::rngs::StdRng;
use rand::seq::IndexedRandom;

verus! {

/// Declares `rand`'s standard generator so it can cross the verified
/// API; its state stays opaque, so nothing is assumed of its output.
#[verifier::external_type_specification]
#[verifier::external_body]
pub struct ExStdRng(StdRng);

/// An opaque frequency-weighted distribution over `u64` weights,
/// backed by `rand`'s `WeightedIndex`.
#[verifier::external_body]
pub struct WeightedU64 {
    inner: WeightedIndex<u64>,
}

/// The weights a `WeightedU64` was built over.
pub uninterp spec fn weighted_index_weights(w: WeightedU64) -> Seq<u64>;

/// The sum of a weight vector.
pub open spec fn sum64(s: Seq<u64>) -> int
    decreases s.len(),
{
    if s.len() == 0 {
        0
    } else {
        sum64(s.drop_last()) + s.last()
    }
}

/// Relies on `WeightedIndex::new`: over nonempty `u64` weights whose
/// total is positive and fits the weight type, it returns the
/// distribution over exactly these weights.
#[verifier::external_body]
pub(crate) fn new_weighted_index(weights: &Vec<u64>) -> (w: WeightedU64)
    requires
        weights@.len() >= 1,
        0 < sum64(weights@) <= u64::MAX,
    ensures
        weighted_index_weights(w) == weights@,
{
    WeightedU64 { inner: WeightedIndex::new(weights.iter()).unwrap() }
}

/// Relies on `WeightedIndex`'s `Distribution::sample`: the index comes
/// out with probability proportional to its weight, so whatever the
/// draw, it is in range and its weight is nonzero.
#[verifier::external_body]
pub(crate) fn sample_weighted(rng: &mut StdRng, w: &WeightedU64) -> (i: usize)
    ensures
        i < weighted_index_weights(*w).len(),
        weighted_index_weights(*w)[i as int] > 0,
{
    w.inner.sample(rng)
}

/// Relies on `IndexedRandom::choose`: a nonempty slice yields one of
/// its own elements, chosen uniformly.
#[verifier::external_body]
pub(crate) fn choose_index(rng: &mut StdRng, v: &Vec<usize>) -> (r: usize)
    requires
        v@.len() >= 1,
    ensures
        v@.contains(r),
{
    *v.choose(rng).unwrap()
}

} // verus!
