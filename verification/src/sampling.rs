//! The random-sampling boundary.
//!
//! Seeding draws its randomness from the `rand` crate: a uniformly random
//! pixel index for the first centroid, and a weighted index distribution over
//! squared distances for every further one. The calls stand behind the
//! trusted declarations of this module; everything the engine concludes from
//! a drawn value rests only on the bounds stated here, never on which value
//! came back, so the engine is verified for every possible draw.

use vstd::prelude::*;
use rand::Rng;
use rand::distributions::Distribution;
use rand::distributions::WeightedIndex;
use rand::rngs::StdRng;

verus! {

#[verifier::external_type_specification]
#[verifier::external_body]
pub struct ExStdRng(StdRng);

/// A weighted index distribution of the `rand` crate, held opaquely: Verus
/// refuses `WeightedIndex`'s own declaration (its type parameter carries an
/// outside trait bound), so the value lives in a hidden field and is spoken
/// of only through `wi_weights`.
#[verifier::external_body]
pub struct WeightedDist {
    inner: WeightedIndex<u128>,
}

/// The weights a `WeightedDist` was built from.
pub uninterp spec fn wi_weights(d: WeightedDist) -> Seq<u128>;

/// Sum of a sequence of weights.
pub open spec fn spec_sum(s: Seq<u128>) -> int
    decreases s.len(),
{
    if s.len() == 0 {
        0
    } else {
        spec_sum(s.drop_last()) + s.last()
    }
}

/// Relies on rand's `Rng::gen_range` over `0..n`: it returns a uniformly
/// random index strictly below `n`, and panics only on an empty range.
#[verifier::external_body]
pub(crate) fn rand_below(rng: &mut StdRng, n: usize) -> (r: usize)
    requires
        n > 0,
    ensures
        r < n,
{
    rng.gen_range(0..n)
}

/// Relies on rand's `WeightedIndex::new`: it returns `Err` exactly when the
/// weight list is empty or sums to zero (an unsigned weight is never
/// negative), and otherwise a distribution over the given weights. Summing
/// the weights must not overflow, else `new` itself would.
#[verifier::external_body]
pub(crate) fn weighted_index_new(ws: &Vec<u128>) -> (r: Option<WeightedDist>)
    requires
        spec_sum(ws@) <= u128::MAX,
    ensures
        r is Some <==> (ws@.len() > 0 && spec_sum(ws@) > 0),
        r matches Some(d) ==> wi_weights(d) == ws@,
{
    match WeightedIndex::new(ws) {
        Ok(d) => Some(WeightedDist { inner: d }),
        Err(_) => None,
    }
}

/// Relies on rand's `WeightedIndex` sampling (`Distribution::sample`): the
/// drawn value is an index into the weight list the distribution was built
/// from, and an index of weight zero is never drawn.
#[verifier::external_body]
pub(crate) fn weighted_index_sample(d: &WeightedDist, rng: &mut StdRng) -> (r: usize)
    ensures
        r < wi_weights(*d).len(),
        wi_weights(*d)[r as int] > 0,
{
    d.inner.sample(rng)
}


/// A sum of non-negative weights is non-negative.
pub proof fn lemma_sum_nonneg(s: Seq<u128>)
    ensures
        spec_sum(s) >= 0,
    decreases s.len(),
{
    if s.len() > 0 {
        lemma_sum_nonneg(s.drop_last());
    }
}

/// A sum of non-negative weights is zero only when every weight is zero.
pub proof fn lemma_sum_zero(s: Seq<u128>)
    requires
        spec_sum(s) == 0,
    ensures
        forall|i: int| 0 <= i < s.len() ==> s[i] == 0,
    decreases s.len(),
{
    if s.len() > 0 {
        lemma_sum_nonneg(s.drop_last());
        lemma_sum_zero(s.drop_last());
        assert(forall|i: int| 0 <= i < s.len() - 1 ==> s[i] == s.drop_last()[i]);
    }
}
} // verus!
