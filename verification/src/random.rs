//! The calls into `rand` that the simulation makes. Each item here is trusted:
//! Verus believes its contract without reading its body.

use rand::rngs::StdRng;
use rand::seq::IteratorRandom;
use rand::seq::SliceRandom;
use rand::Rng;
use rand::SeedableRng;
use vstd::prelude::*;

verus! {

/// `rand::rngs::StdRng`, carried through opaquely.
#[verifier::external_type_specification]
#[verifier::external_body]
pub struct ExStdRng(StdRng);

/// Calls `StdRng::seed_from_u64`. Nothing is claimed of the generator it
/// returns: its stream is only ever read through the wrappers below, whose
/// contracts hold whatever the generator produces.
#[verifier::external_body]
pub(crate) fn seeded_rng(seed: u64) -> StdRng {
    StdRng::seed_from_u64(seed)
}

/// Calls `Rng::random_range` with the inclusive range `lo..=hi`. Claimed: the
/// draw lies in that range. The range must not be empty, as `random_range`
/// panics on an empty one.
#[verifier::external_body]
pub(crate) fn random_in_range(rng: &mut StdRng, lo: u32, hi: u32) -> (r: u32)
    requires
        lo <= hi,
    ensures
        lo <= r <= hi,
{
    rng.random_range(lo..=hi)
}

/// Calls `IteratorRandom::choose_multiple` on the items of `candidates`.
/// Claimed, as its reservoir sampling shows: it returns `amount` items, or all
/// of them when there are fewer, and each returned item is taken from a
/// distinct place of `candidates`, so the result is a sub-multiset of it.
/// Which items are chosen, and in what order, is left unsaid: it rests on the
/// generator.
#[verifier::external_body]
pub(crate) fn choose_multiple(rng: &mut StdRng, candidates: Vec<usize>, amount: usize) -> (chosen:
    Vec<usize>)
    ensures
        chosen.len() == (if candidates.len() < amount {
            candidates.len()
        } else {
            amount
        }),
        chosen@.to_multiset().subset_of(candidates@.to_multiset()),
{
    candidates.into_iter().choose_multiple(rng, amount)
}

/// Calls `SliceRandom::shuffle` with the thread-local generator `rand::rng()`.
/// Claimed: the result is a permutation of the input (the Fisher-Yates shuffle
/// only swaps items). Which permutation is left unsaid: it rests on chance.
#[verifier::external_body]
pub(crate) fn shuffle(items: &mut Vec<(i32, i32)>)
    ensures
        final(items)@.to_multiset() == old(items)@.to_multiset(),
{
    items.shuffle(&mut rand::rng());
}

} // verus!
