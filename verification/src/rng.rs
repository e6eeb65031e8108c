use vstd::prelude::*;
use rand::Rng;
use crate::piece::Piece;
use rand::rngs::ThreadRng;
use rand::seq::SliceRandom;
use rand::distributions::WeightedIndex;
use rand_pcg::Mcg128Xsl64;

verus! {

/// The PCG generator that the games draw their pieces and garbage from.
#[verifier::external_type_specification]
#[verifier::external_body]
pub struct ExMcg128Xsl64(Mcg128Xsl64);

/// Calls `rand::seq::SliceRandom::choose` with the PCG generator: one of the pieces, uniformly
/// at random, or `None` when there is none. Which piece comes out depends on the generator's
/// state, so only that it is one of them is stated.
#[verifier::external_body]
pub(crate) fn choose_piece(rng: &mut Mcg128Xsl64, items: &Vec<Piece>) -> (r: Option<Piece>)
    ensures
        r is None <==> items@.len() == 0,
        r matches Some(x) ==> items@.contains(x),
{
    items.choose(rng).copied()
}

/// The generator local to the thread, which the search draws its choices from.
#[verifier::external_type_specification]
#[verifier::external_body]
pub struct ExThreadRng(ThreadRng);

/// A distribution of `rand` that picks an index with probability proportional to its weight,
/// held in a private field; `weights_of` names the weights it was built from.
#[verifier::external_body]
pub struct WeightedPick {
    dist: WeightedIndex<i64>,
}

/// The weights a weighted distribution was built from.
pub uninterp spec fn weights_of(d: WeightedPick) -> Seq<i64>;

/// Calls `rand::thread_rng`: a handle on the thread's generator. Nothing is stated of it.
#[verifier::external_body]
pub(crate) fn local_rng() -> ThreadRng {
    rand::thread_rng()
}

/// Calls `rand::distributions::WeightedIndex::new` on the weights, keeping the distribution
/// and dropping the error. Its source fails when there is no weight, when a weight is
/// negative, or when all are zero, and builds a distribution over the given weights otherwise;
/// it adds the weights up, which `requires` keeps within `i64`.
#[verifier::external_body]
pub(crate) fn weighted_index(weights: &Vec<i64>) -> (r: Option<WeightedPick>)
    requires
        forall|i: int| 0 <= i < weights@.len() ==> 0 <= #[trigger] weights@[i],
        crate::evaluation::sum_range(0, weights@.len() as int, |i: int| weights@[i] as int) <= i64::MAX,
    ensures
        (exists|i: int| 0 <= i < weights@.len() && #[trigger] weights@[i] > 0) <==> r is Some,
        r matches Some(d) ==> weights_of(d) == weights@,
{
    match WeightedIndex::new(weights) {
        Ok(dist) => Some(WeightedPick { dist }),
        Err(_) => None,
    }
}

/// Calls `rand::Rng::sample` with a weighted distribution. Its source draws a value below the
/// total weight and returns the index whose span of the running total holds it, so the index
/// has a positive weight; which one depends on the generator's state.
#[verifier::external_body]
pub(crate) fn sample_weighted(rng: &mut ThreadRng, d: &WeightedPick) -> (i: usize)
    requires
        exists|i: int| 0 <= i < weights_of(*d).len() && #[trigger] weights_of(*d)[i] > 0,
        forall|i: int| 0 <= i < weights_of(*d).len() ==> 0 <= #[trigger] weights_of(*d)[i],
    ensures
        i < weights_of(*d).len(),
        weights_of(*d)[i as int] > 0,
{
    rng.sample(&d.dist)
}

/// Calls `rand::seq::SliceRandom::choose`: one of the items, uniformly at random, or `None`
/// when there is none.
#[verifier::external_body]
pub(crate) fn choose_item(rng: &mut ThreadRng, items: &Vec<usize>) -> (r: Option<usize>)
    ensures
        r is None <==> items@.len() == 0,
        r matches Some(x) ==> items@.contains(x),
{
    items.choose(rng).copied()
}

} // verus!
