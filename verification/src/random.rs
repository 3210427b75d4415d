//! Chance: what the library takes from the `rand` crates. Nothing here is proved; each
//! contract states what the called function's source shows of every outcome.

use rand::distributions::{Distribution, WeightedIndex};
use rand::seq::SliceRandom;
use rand::SeedableRng;
use rand_xoshiro::Xoshiro256Plus;
use vstd::prelude::*;

verus! {

/// The sum of the weights.
pub open spec fn total_weight(weights: Seq<u32>) -> int
    decreases weights.len(),
{
    if weights.len() == 0 {
        0
    } else {
        total_weight(weights.drop_last()) + weights.last()
    }
}

/// `rand::seq::SliceRandom::shuffle` on the cells, driven by a `Xoshiro256Plus` that
/// `SeedableRng::from_entropy` has seeded. The shuffle only swaps cells, so the
/// contract claims that the cells afterwards are the cells before in some order, and
/// nothing of the order. (`from_entropy` panics where the system gives no entropy.)
#[verifier::external_body]
pub(crate) fn shuffle_cells(cells: &mut Vec<i32>)
    ensures
        final(cells)@.to_multiset() == old(cells)@.to_multiset(),
{
    let mut rng = Xoshiro256Plus::from_entropy();
    cells.shuffle(&mut rng);
}

/// `rand::seq::SliceRandom::choose` on the items, driven by `rand::thread_rng`. It gives
/// `None` for an empty slice and else the item at an index below the length; the
/// contract claims this and nothing of which item it is. (The first use of
/// `thread_rng` panics where the system gives no entropy.)
#[verifier::external_body]
pub(crate) fn pick<T: Copy>(items: &Vec<T>) -> (picked: Option<T>)
    ensures
        picked is None <==> items@.len() == 0,
        picked matches Some(item) ==> items@.contains(item),
{
    items.choose(&mut rand::thread_rng()).copied()
}

/// `rand::distributions::WeightedIndex::new` on the weights and one `sample` of it,
/// driven by `rand::thread_rng`. `new` fails for no weights and for weights that are
/// all zero, and else adds the weights up; `sample` gives the index of a weight that is
/// not zero. The contract claims this and nothing of which index it is. Weights whose
/// sum does not fit a `u32` are left out. (The first use of `thread_rng` panics where
/// the system gives no entropy.)
#[verifier::external_body]
pub(crate) fn pick_weighted(weights: &Vec<u32>) -> (picked: Option<usize>)
    requires
        total_weight(weights@) <= u32::MAX,
    ensures
        picked is Some <==> total_weight(weights@) > 0,
        picked matches Some(index) ==> index < weights@.len() && weights@[index as int] > 0,
{
    match WeightedIndex::new(weights) {
        Ok(dist) => Some(dist.sample(&mut rand::thread_rng())),
        Err(_) => None,
    }
}

} // verus!
