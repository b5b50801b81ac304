//! The random source, and the draws the solver makes from it.
//!
//! The generator is `rand`'s `StdRng`. What a draw returns cannot be known, so each contract
//! below states only what holds of every outcome.
use vstd::prelude::*;
use rand::rngs::StdRng;
use rand::seq::SliceRandom;
use rand::seq::IteratorRandom;
use rand::Rng;

verus! {

/// `rand::rngs::StdRng`, the random generator. Nothing is said of what is inside it.
#[verifier::external_type_specification]
#[verifier::external_body]
pub struct ExStdRng(StdRng);

/// `SliceRandom::choose_weighted` on `items`, each weighted by its second part: the first
/// part of one item, picked with a probability in proportion to its weight. The item has a
/// weight above zero; the result is `None` if and only if no item has one. The weights are
/// handed over as 128-bit numbers, so that their sum cannot overflow.
#[verifier::external_body]
pub(crate) fn choose_weighted_value<T: Copy>(items: &Vec<(T, u32)>, rng: &mut StdRng) -> (picked:
    Option<T>)
    ensures
        picked is None <==> forall|i: int| 0 <= i < items@.len() ==> (#[trigger] items@[i]).1 == 0,
        picked is Some ==> exists|i: int|
            0 <= i < items@.len() && (#[trigger] items@[i]).0 == picked->0 && items@[i].1 > 0,
{
    items.choose_weighted(rng, |item| u128::from(item.1)).ok().map(|item| item.0)
}

/// `IteratorRandom::choose` on the items of `items`, in their order: one of them, or `None`
/// if and only if there is none.
#[verifier::external_body]
pub(crate) fn choose_location<const D: usize>(items: &Vec<[usize; D]>, rng: &mut StdRng) -> (picked:
    Option<[usize; D]>)
    ensures
        picked is None <==> items@.len() == 0,
        picked is Some ==> items@.contains(picked->0),
{
    items.iter().copied().choose(rng)
}

/// `SliceRandom::shuffle`: reorders `items` in place. Nothing is added, dropped or changed.
#[verifier::external_body]
pub(crate) fn shuffle_locations<const D: usize>(items: &mut Vec<[usize; D]>, rng: &mut StdRng)
    ensures
        final(items)@.to_multiset() == old(items)@.to_multiset(),
{
    items.shuffle(rng);
}

/// `Rng::gen_ratio`: `true` with probability `numerator / denominator`. It is always `true`
/// when the two are equal and never `true` when `numerator` is zero.
#[verifier::external_body]
pub(crate) fn draw_ratio(rng: &mut StdRng, numerator: u32, denominator: u32) -> (hit: bool)
    requires
        denominator > 0,
        numerator <= denominator,
    ensures
        numerator == denominator ==> hit,
        numerator == 0 ==> !hit,
{
    rng.gen_ratio(numerator, denominator)
}

} // verus!
