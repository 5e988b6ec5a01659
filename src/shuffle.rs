//! The perfect shuffle of a deck and its period: how many shuffles bring the
//! deck back to its starting order.
use vstd::prelude::*;

verus! {

/// Errors of the shuffle counter.
#[derive(Debug)]
pub enum ShuffleError {
    /// The number of card pairs must be greater than zero.
    InvalidInputError(u32),
    /// The deck of this many cards did not come back within `u32::MAX` shuffles.
    CountOverflow(u32),
}

/// The settings of a shuffle run.
pub struct ShuffleArgs {
    /// Number of card pairs: the deck holds `2 * n` cards.
    pub n: u32,
}

impl ShuffleArgs {
    /// Checks that at least one pair of cards is asked for.
    pub fn validate(&self) -> (r: Result<(), ShuffleError>)
        ensures
            self.n == 0 ==> r matches Err(ShuffleError::InvalidInputError(0)),
            self.n > 0 ==> r is Ok,
    {
        if self.n == 0 {
            return Err(ShuffleError::InvalidInputError(self.n));
        }
        Ok(())
    }
}

/// The perfect shuffle: the deck is cut into halves and the halves are
/// interleaved, the first half's cards first. Of an odd deck the last card
/// is dropped.
pub open spec fn perfect_shuffle(a: Seq<u32>) -> Seq<u32> {
    Seq::new(
        2 * (a.len() / 2),
        |i: int|
            if i % 2 == 0 {
                a[i / 2]
            } else {
                a[a.len() / 2 + i / 2]
            },
    )
}

/// The deck after `k` perfect shuffles.
pub open spec fn shuffled_times(a: Seq<u32>, k: nat) -> Seq<u32>
    decreases k,
{
    if k == 0 {
        a
    } else {
        perfect_shuffle(shuffled_times(a, (k - 1) as nat))
    }
}

/// A fresh deck of `cards` cards, numbered from one.
pub open spec fn deck(cards: nat) -> Seq<u32> {
    Seq::new(cards, |i: int| (i + 1) as u32)
}

/// Performs a perfect shuffle of `array`.
pub fn shuffle(array: &[u32]) -> (r: Vec<u32>)
    ensures
        r@ == perfect_shuffle(array@),
{
    let mid = array.len() / 2;
    let mut result: Vec<u32> = Vec::new();
    let mut k: usize = 0;
    while k < mid
        invariant
            mid == array.len() / 2,
            k <= mid,
            result@.len() == 2 * k,
            forall|i: int| 0 <= i < 2 * k ==> #[trigger] result@[i] == perfect_shuffle(array@)[i],
        decreases mid - k,
    {
        result.push(array[k]);
        result.push(array[mid + k]);
        k += 1;
        assert(result@[2 * k - 2] == perfect_shuffle(array@)[2 * k - 2]);
        assert(result@[2 * k - 1] == perfect_shuffle(array@)[2 * k - 1]);
    }
    assert(result@ =~= perfect_shuffle(array@));
    result
}

/// Relies on `itertools::equal`: true exactly when both sequences have the
/// same length and pairwise equal elements.
#[verifier::external_body]
fn same_order(a: &Vec<u32>, b: &Vec<u32>) -> (r: bool)
    ensures
        r == (a@ == b@),
{
    itertools::equal(a, b)
}

/// Counts how many perfect shuffles bring a deck of `cards` cards back to
/// its starting order: the least `c >= 1` after which the deck is restored.
pub fn shuffle_count(cards: u32) -> (r: Result<u32, ShuffleError>)
    ensures
        r matches Ok(c) ==> {
            &&& c >= 1
            &&& shuffled_times(deck(cards as nat), c as nat) == deck(cards as nat)
            &&& forall|k: nat|
                1 <= k < c ==> #[trigger] shuffled_times(deck(cards as nat), k) != deck(
                    cards as nat,
                )
        },
        r matches Err(e) ==> {
            &&& e matches ShuffleError::CountOverflow(x) && x == cards
            &&& forall|k: nat|
                1 <= k <= u32::MAX ==> #[trigger] shuffled_times(deck(cards as nat), k) != deck(
                    cards as nat,
                )
        },
{
    let mut fresh: Vec<u32> = Vec::new();
    let mut i: u32 = 0;
    while i < cards
        invariant
            i <= cards,
            fresh@ == deck(i as nat),
        decreases cards - i,
    {
        fresh.push(i + 1);
        i += 1;
        assert(fresh@ =~= deck(i as nat));
    }
    let ghost d = fresh@;
    let mut current = shuffle(&fresh);
    let mut count: u32 = 1;
    assert(shuffled_times(d, 1) == perfect_shuffle(shuffled_times(d, 0)));
    while !same_order(&fresh, &current)
        invariant
            fresh@ == d,
            d == deck(cards as nat),
            1 <= count,
            current@ == shuffled_times(d, count as nat),
            forall|k: nat| 1 <= k < count ==> #[trigger] shuffled_times(d, k) != d,
        decreases u32::MAX - count,
    {
        if count == u32::MAX {
            return Err(ShuffleError::CountOverflow(cards));
        }
        current = shuffle(&current);
        count += 1;
    }
    Ok(count)
}

} // verus!
