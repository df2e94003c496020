//! The random draws of the ensembles, made by the random number generators of `rand`
use vstd::prelude::*;
use rand::seq::SliceRandom;
use rand::distributions::{Distribution, WeightedError, WeightedIndex};
use crate::seq_util::seq_sum;

verus! {

/// An index drawn by `rng` from `0..upper` with `rand::Rng::gen_range`, which asserts
/// that the range is not empty and samples from it.
#[verifier::external_body]
pub(crate) fn draw_index<R: rand::Rng>(rng: &mut R, upper: usize) -> (r: usize)
    requires
        upper > 0,
    ensures
        r < upper,
{
    rng.gen_range(0..upper)
}

/// The entries of `v` brought into a random order by `rng` with
/// `rand::seq::SliceRandom::shuffle`, a Fisher-Yates shuffle that only swaps entries:
/// the same entries, each as often as before.
#[verifier::external_body]
pub(crate) fn shuffle_entries<T, R: rand::Rng>(v: &mut Vec<T>, rng: &mut R)
    ensures
        final(v)@.to_multiset() == old(v)@.to_multiset(),
{
    v.as_mut_slice().shuffle(rng)
}

/// Two different indices below `high`: the first drawn from all of them, the second
/// from the others
pub fn draw_two_from_range<R: rand::Rng>(rng: &mut R, high: usize) -> (r: (usize, usize))
    requires
        high >= 2,
    ensures
        r.0 < high,
        r.1 < high,
        r.0 != r.1,
{
    let first = draw_index(rng, high);
    let second = draw_index(rng, high - 1);
    if second < first {
        (first, second)
    } else {
        (first, second + 1)
    }
}

/// An index below `high` other than `index`, each equally likely
pub fn draw_remaining<R: rand::Rng>(rng: &mut R, index: usize, high: usize) -> (r: usize)
    requires
        high >= 1,
    ensures
        r <= high,
        r != index,
{
    let num = draw_index(rng, high);
    if num < index {
        num
    } else {
        num + 1
    }
}

/// A weighted draw of indices by `usize` weights: a `rand::distributions::WeightedIndex`
#[verifier::external_body]
pub struct WeightedDraw {
    dist: WeightedIndex<usize>,
}

/// Why `rand::distributions::WeightedIndex` refused weights
#[verifier::external_type_specification]
#[verifier::external_body]
pub struct ExWeightedError(WeightedError);

/// the weights that a weighted draw draws indices by
pub uninterp spec fn weighted_weights(dist: WeightedDraw) -> Seq<usize>;

/// `rand::distributions::WeightedIndex::new` on `weights`: it adds up the weights and
/// refuses an empty list (`NoItem`) or weights that add up to zero (`AllWeightsZero`);
/// else the draw it returns holds exactly these weights.
#[verifier::external_body]
pub(crate) fn weighted_index(weights: &Vec<usize>) -> (r: Result<WeightedDraw, WeightedError>)
    requires
        seq_sum(weights@) <= usize::MAX,
    ensures
        r is Ok <==> (weights@.len() > 0 && seq_sum(weights@) > 0),
        r matches Ok(d) ==> weighted_weights(d) == weights@,
{
    WeightedIndex::new(weights).map(|dist| WeightedDraw { dist })
}

/// `rand::distributions::Distribution::sample` of a weighted draw: a uniform number below
/// the total weight, located among the running sums of the weights, so the index it
/// gives has a positive weight.
#[verifier::external_body]
pub(crate) fn weighted_draw<R: rand::Rng>(dist: &WeightedDraw, rng: &mut R) -> (r: usize)
    requires
        seq_sum(weighted_weights(*dist)) > 0,
    ensures
        r < weighted_weights(*dist).len(),
        weighted_weights(*dist)[r as int] > 0,
{
    dist.dist.sample(rng)
}

/// `rand::distributions::WeightedIndex::update_weights` with the single pair
/// `(index, weight)`: it refuses, leaving the draw as it was, when the new weights add up
/// to zero; else the draw holds the weights with entry `index` replaced.
#[verifier::external_body]
pub(crate) fn weighted_set(dist: &mut WeightedDraw, index: usize, weight: usize) -> (r: Result<(), WeightedError>)
    requires
        index < weighted_weights(*old(dist)).len(),
        seq_sum(weighted_weights(*old(dist)).update(index as int, weight)) <= usize::MAX,
    ensures
        r is Ok <==> seq_sum(weighted_weights(*old(dist)).update(index as int, weight)) > 0,
        r is Ok ==> weighted_weights(*final(dist)) == weighted_weights(*old(dist)).update(index as int, weight),
        r is Err ==> *final(dist) == *old(dist),
{
    dist.dist.update_weights(&[(index, &weight)])
}

} // verus!
