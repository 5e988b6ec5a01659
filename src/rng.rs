//! The random draws that the walks make, through the `rand` crate.
//!
//! Nothing is promised of which value a draw yields, only the range that
//! every outcome lies in.
use rand::distributions::WeightedError;
use rand::rngs::ThreadRng;
use rand::seq::SliceRandom;
use rand::Rng;
use vstd::prelude::*;

verus! {

#[verifier::external_type_specification]
#[verifier::external_body]
pub struct ExThreadRng(ThreadRng);

#[verifier::external_type_specification]
#[verifier::external_body]
pub struct ExWeightedError(WeightedError);

/// Relies on `rand::thread_rng`: a handle to the calling thread's own
/// generator, so that concurrent trials never share one.
pub assume_specification[ rand::thread_rng ]() -> ThreadRng;

/// The total weight that `items` carry, each item `p` weighing `weights[p]`.
pub open spec fn weight_total(items: Seq<usize>, weights: Seq<u8>) -> int
    decreases items.len(),
{
    if items.len() == 0 {
        0
    } else {
        weight_total(items.drop_last(), weights) + weights[items.last() as int] as int
    }
}

/// Relies on `SliceRandom::choose_weighted` of rand: it builds a
/// `WeightedIndex` over the weights and picks the first item whose cumulative
/// weight exceeds a uniform draw below the total, so an item of weight zero is
/// never picked; it fails only when there is no item or every weight is zero.
/// The total is summed in `u8`, hence the bound.
#[verifier::external_body]
pub(crate) fn choose_weighted_item(
    rng: &mut ThreadRng,
    items: &Vec<usize>,
    weights: &Vec<u8>,
) -> (r: Result<usize, WeightedError>)
    requires
        forall|i: int| 0 <= i < items.len() ==> #[trigger] items[i] < weights.len(),
        weight_total(items@, weights@) <= u8::MAX,
    ensures
        r matches Ok(p) ==> items@.contains(p) && weights[p as int] > 0,
        r is Err ==> forall|i: int|
            0 <= i < items.len() ==> #[trigger] weights[items[i] as int] == 0,
{
    items.choose_weighted(rng, |&p| weights[p]).map(|&p| p)
}

/// Relies on `Rng::gen_range` of rand on a half-open range of `u64`: the
/// value lies in the range, which must not be empty.
#[verifier::external_body]
pub(crate) fn draw_below(rng: &mut ThreadRng, low: u64, high: u64) -> (r: u64)
    requires
        low < high,
    ensures
        low <= r < high,
{
    rng.gen_range(low..high)
}

/// Relies on `Rng::gen::<bool>` of rand: a fair coin.
#[verifier::external_body]
pub(crate) fn flip_coin(rng: &mut ThreadRng) -> bool {
    rng.gen::<bool>()
}

/// Relies on `SliceRandom::choose` of rand: `None` exactly for an empty
/// slice, else one of its elements.
#[verifier::external_body]
pub(crate) fn choose_element(rng: &mut ThreadRng, items: &Vec<u8>) -> (r: Option<u8>)
    ensures
        r is None <==> items.len() == 0,
        r matches Some(d) ==> items@.contains(d),
{
    items.choose(rng).copied()
}

} // verus!
