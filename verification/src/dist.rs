//! The weighted sampling distribution that an entry draws from, and the
//! random source that feeds it. Both come from the `rand` crate; what this
//! module states of them is taken on trust from that crate's source.

use rand::distributions::{Distribution, WeightedError, WeightedIndex};
use rand::rngs::StdRng;
use vstd::prelude::*;

verus! {

/// A distribution over the indices of a list of weights: a
/// `rand::distributions::WeightedIndex<usize>`, held whole. Proofs see of it
/// only what [`dist_weights`] names.
#[verifier::external_body]
#[derive(Debug)]
pub struct Dist {
    inner: WeightedIndex<usize>,
}

/// `rand::distributions::WeightedError`, the reason why a list of weights
/// was refused.
#[verifier::external_type_specification]
#[verifier::external_body]
pub struct ExWeightedError(WeightedError);

/// `rand::rngs::StdRng`, the random source of a walk.
#[verifier::external_type_specification]
#[verifier::external_body]
pub struct ExStdRng(StdRng);

/// The weights that a distribution was built from, in order, with every
/// later update applied.
pub uninterp spec fn dist_weights(d: Dist) -> Seq<usize>;

/// The sum of a list of weights.
pub open spec fn total(ws: Seq<usize>) -> nat
    decreases ws.len(),
{
    if ws.len() == 0 {
        0
    } else {
        total(ws.drop_last()) + ws.last() as nat
    }
}

/// Calls `WeightedIndex::new` on the weights. By that function's source the
/// call fails exactly when there is no weight or all of them are zero, and
/// otherwise gives a distribution over these weights in this order. The
/// weights are summed in `usize`, so the sum has to fit.
#[verifier::external_body]
pub(crate) fn dist_new(ws: &Vec<usize>) -> (r: Result<Dist, WeightedError>)
    requires
        total(ws@) <= usize::MAX,
    ensures
        r is Ok <==> total(ws@) > 0,
        r matches Ok(d) ==> dist_weights(d) == ws@,
{
    match WeightedIndex::new(ws) {
        Ok(inner) => Ok(Dist { inner }),
        Err(e) => Err(e),
    }
}

/// Calls `WeightedIndex::update_weights` with one new weight for one index.
/// By that function's source the call fails, and leaves the distribution as
/// it was, exactly when the weights would then all be zero; otherwise the
/// weight at the index is replaced and the others stay.
#[verifier::external_body]
pub(crate) fn dist_update(d: &mut Dist, i: usize, w: usize) -> (r: Result<(), WeightedError>)
    requires
        i < dist_weights(*old(d)).len(),
        total(dist_weights(*old(d)).update(i as int, w)) <= usize::MAX,
    ensures
        r is Ok <==> total(dist_weights(*old(d)).update(i as int, w)) > 0,
        r is Ok ==> dist_weights(*final(d)) == dist_weights(*old(d)).update(i as int, w),
        r is Err ==> dist_weights(*final(d)) == dist_weights(*old(d)),
{
    d.inner.update_weights(&[(i, &w)])
}

/// Calls `Distribution::sample` on the distribution. Which index comes out
/// depends on the random source; by the source of `WeightedIndex` it is
/// always the index of a weight that is not zero.
#[verifier::external_body]
pub(crate) fn dist_sample(d: &Dist, rng: &mut StdRng) -> (i: usize)
    ensures
        i < dist_weights(*d).len(),
        dist_weights(*d)[i as int] > 0,
{
    d.inner.sample(rng)
}

} // verus!
