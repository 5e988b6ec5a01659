//! Summary statistics over a sample of trial outcomes (move counts).
//!
//! Every quantity is kept exact: counts, extremes, the two central values of
//! the sorted sample, and the first four power sums. The floating-point
//! moments (mean, population variance, standard deviation, coefficient of
//! variation, skewness and non-excess kurtosis) are functions of these values
//! alone: with `n` outcomes and power sums `S1..S4`, the mean is `S1 / n` and
//! the population variance `S2 / n - (S1 / n)^2`.
use vstd::prelude::*;
use vstd::relations::{sorted_by, total_ordering};
use vstd::seq_lib::{group_to_multiset_ensures, lemma_sorted_unique};

verus! {

/// Errors of the simulations and of the statistics over their outcomes.
#[derive(Debug)]
pub enum SimulationError {
    /// The sample holds no outcome.
    EmptyMoveArray,
    /// A target, dimension or start that the walk cannot use.
    InvalidTarget(i64),
    /// A trial count of zero.
    InvalidIterationCount(u64),
    /// The sample's standard deviation is zero: the standardized moments are undefined.
    StatisticalError(String),
    /// A walk went on for more moves than a `u64` can count.
    MoveCountOverflow,
}

/// `x` raised to the power `k`.
pub open spec fn pow(x: int, k: nat) -> int
    decreases k,
{
    if k == 0 {
        1
    } else {
        x * pow(x, (k - 1) as nat)
    }
}

/// The sum of the `k`-th powers of the outcomes.
pub open spec fn power_sum(s: Seq<u64>, k: nat) -> int
    decreases s.len(),
{
    if s.len() == 0 {
        0
    } else {
        power_sum(s.drop_last(), k) + pow(s.last() as int, k)
    }
}

/// The smallest outcome of a non-empty sample.
pub open spec fn seq_min(s: Seq<u64>) -> u64
    decreases s.len(),
{
    if s.len() <= 1 {
        s[0]
    } else if s.last() < seq_min(s.drop_last()) {
        s.last()
    } else {
        seq_min(s.drop_last())
    }
}

/// The largest outcome of a non-empty sample.
pub open spec fn seq_max(s: Seq<u64>) -> u64
    decreases s.len(),
{
    if s.len() <= 1 {
        s[0]
    } else if s.last() > seq_max(s.drop_last()) {
        s.last()
    } else {
        seq_max(s.drop_last())
    }
}

/// Every outcome of the sample is the same.
pub open spec fn all_same(s: Seq<u64>) -> bool {
    forall|i: int| 0 <= i < s.len() ==> #[trigger] s[i] == s[0]
}

/// The order in which a sample is sorted.
pub open spec fn moves_leq(a: u64, b: u64) -> bool {
    a <= b
}

/// The order in which a sample is sorted, as a relation.
pub open spec fn moves_order() -> spec_fn(u64, u64) -> bool {
    |a: u64, b: u64| moves_leq(a, b)
}

/// The sample in non-decreasing order.
pub open spec fn sorted_moves(s: Seq<u64>) -> Seq<u64> {
    s.sort_by(moves_order())
}

/// Whether the fourth power sum, and with it every lower one, fits in a `u128`.
pub open spec fn moments_fit(s: Seq<u64>) -> bool {
    power_sum(s, 4) <= u128::MAX
}

/// Exact summary of a sample of move counts.
///
/// `median_low` and `median_high` are the two central values of the sorted
/// sample (the same value when the sample has odd length); the median is
/// their average. `min_moves_count / count` is the fraction of trials that
/// took the shortest observed path.
#[derive(Debug, PartialEq, Eq, Structural)]
pub struct SimulationStats {
    pub count: u64,
    pub min_moves: u64,
    pub max_moves: u64,
    pub min_moves_count: u64,
    pub sum: u128,
    pub sum_squares: u128,
    pub sum_cubes: u128,
    pub sum_fourths: u128,
    pub median_low: u64,
    pub median_high: u64,
}

/// The summary of a non-empty sample.
pub open spec fn stats_of(s: Seq<u64>) -> SimulationStats {
    SimulationStats {
        count: s.len() as u64,
        min_moves: seq_min(s),
        max_moves: seq_max(s),
        min_moves_count: s.to_multiset().count(seq_min(s)) as u64,
        sum: power_sum(s, 1) as u128,
        sum_squares: power_sum(s, 2) as u128,
        sum_cubes: power_sum(s, 3) as u128,
        sum_fourths: power_sum(s, 4) as u128,
        median_low: sorted_moves(s)[((s.len() - 1) / 2) as int],
        median_high: sorted_moves(s)[(s.len() / 2) as int],
    }
}

proof fn lemma_pow_nonneg(x: int, k: nat)
    requires
        x >= 0,
    ensures
        pow(x, k) >= 0,
    decreases k,
{
    if k > 0 {
        lemma_pow_nonneg(x, (k - 1) as nat);
        assert(x * pow(x, (k - 1) as nat) >= 0) by (nonlinear_arith)
            requires
                x >= 0,
                pow(x, (k - 1) as nat) >= 0,
        ;
    }
}

proof fn lemma_pow_exponent_mono(x: int, j: nat, k: nat)
    requires
        x >= 0,
        1 <= j <= k,
    ensures
        pow(x, j) <= pow(x, k),
    decreases k,
{
    if j < k {
        lemma_pow_exponent_mono(x, j, (k - 1) as nat);
        lemma_pow_nonneg(x, (k - 1) as nat);
        let p = pow(x, (k - 1) as nat);
        if x == 0 {
            assert(pow(x, j) == x * pow(x, (j - 1) as nat));
            assert(pow(x, j) == 0);
        } else {
            assert(p <= x * p) by (nonlinear_arith)
                requires
                    x >= 1,
                    p >= 0,
            ;
        }
    }
}

proof fn lemma_power_sum_nonneg(s: Seq<u64>, k: nat)
    ensures
        power_sum(s, k) >= 0,
    decreases s.len(),
{
    if s.len() > 0 {
        lemma_power_sum_nonneg(s.drop_last(), k);
        lemma_pow_nonneg(s.last() as int, k);
    }
}

proof fn lemma_power_sum_exponent_mono(s: Seq<u64>, j: nat, k: nat)
    requires
        1 <= j <= k,
    ensures
        power_sum(s, j) <= power_sum(s, k),
    decreases s.len(),
{
    if s.len() > 0 {
        lemma_power_sum_exponent_mono(s.drop_last(), j, k);
        lemma_pow_exponent_mono(s.last() as int, j, k);
    }
}

/// The power sum of a prefix, one element longer than `i`.
proof fn lemma_power_sum_step(s: Seq<u64>, i: int, k: nat)
    requires
        0 <= i < s.len(),
    ensures
        power_sum(s.take(i + 1), k) == power_sum(s.take(i), k) + pow(s[i] as int, k),
        power_sum(s.take(i + 1), k) <= power_sum(s, k),
    decreases s.len(),
{
    assert(s.take(i + 1).drop_last() =~= s.take(i));
    if i + 1 < s.len() {
        lemma_power_sum_step(s.drop_last(), i, k);
        assert(s.drop_last().take(i + 1) =~= s.take(i + 1));
        assert(s.drop_last().take(i) =~= s.take(i));
        lemma_pow_nonneg(s.last() as int, k);
    } else {
        assert(s.take(i + 1) =~= s);
    }
}

proof fn lemma_pow_small(x: int)
    ensures
        pow(x, 1) == x,
        pow(x, 2) == x * x,
        pow(x, 3) == x * x * x,
        pow(x, 4) == x * x * x * x,
{
    reveal_with_fuel(pow, 5);
    assert(x * (x * (x * x)) == x * x * x * x) by (nonlinear_arith);
    assert(x * (x * x) == x * x * x) by (nonlinear_arith);
}

/// Each of the first four powers of an outcome, and each power sum of a
/// prefix, stays within the fourth power sum of the whole sample.
proof fn lemma_moment_terms(s: Seq<u64>, i: int)
    requires
        0 <= i < s.len(),
    ensures
        forall|k: nat|
            1 <= k <= 4 ==> {
                &&& #[trigger] power_sum(s.take(i + 1), k) == power_sum(s.take(i), k) + pow(
                    s[i] as int,
                    k,
                )
                &&& power_sum(s.take(i + 1), k) <= power_sum(s, 4)
                &&& power_sum(s.take(i), k) >= 0
                &&& pow(s[i] as int, k) >= 0
            },
{
    assert forall|k: nat| 1 <= k <= 4 implies {
        &&& #[trigger] power_sum(s.take(i + 1), k) == power_sum(s.take(i), k) + pow(s[i] as int, k)
        &&& power_sum(s.take(i + 1), k) <= power_sum(s, 4)
        &&& power_sum(s.take(i), k) >= 0
        &&& pow(s[i] as int, k) >= 0
    } by {
        lemma_power_sum_step(s, i, k);
        lemma_power_sum_exponent_mono(s, k, 4);
        lemma_power_sum_nonneg(s.take(i), k);
        lemma_pow_nonneg(s[i] as int, k);
    }
}

proof fn lemma_min_max_step(s: Seq<u64>, i: int)
    requires
        0 < i < s.len(),
    ensures
        seq_min(s.take(i + 1)) == if s[i] < seq_min(s.take(i)) {
            s[i]
        } else {
            seq_min(s.take(i))
        },
        seq_max(s.take(i + 1)) == if s[i] > seq_max(s.take(i)) {
            s[i]
        } else {
            seq_max(s.take(i))
        },
{
    assert(s.take(i + 1).drop_last() =~= s.take(i));
}

proof fn lemma_min_max_bounds(s: Seq<u64>)
    requires
        s.len() > 0,
    ensures
        s.contains(seq_min(s)),
        s.contains(seq_max(s)),
        forall|i: int| 0 <= i < s.len() ==> seq_min(s) <= #[trigger] s[i] <= seq_max(s),
    decreases s.len(),
{
    if s.len() > 1 {
        let t = s.drop_last();
        lemma_min_max_bounds(t);
        assert forall|i: int| 0 <= i < s.len() implies seq_min(s) <= #[trigger] s[i] <= seq_max(
            s,
        ) by {
            if i < s.len() - 1 {
                assert(s[i] == t[i]);
            }
        }
        if seq_min(s) != s.last() {
            let j = choose|j: int| 0 <= j < t.len() && t[j] == seq_min(t);
            assert(s[j] == t[j]);
        }
        if seq_max(s) != s.last() {
            let j = choose|j: int| 0 <= j < t.len() && t[j] == seq_max(t);
            assert(s[j] == t[j]);
        }
    }
}

/// A non-empty sample has all outcomes equal exactly when its extremes meet.
proof fn lemma_all_same_iff_extremes_meet(s: Seq<u64>)
    requires
        s.len() > 0,
    ensures
        all_same(s) <==> seq_min(s) == seq_max(s),
{
    lemma_min_max_bounds(s);
    if all_same(s) {
        let a = choose|j: int| 0 <= j < s.len() && s[j] == seq_min(s);
        let b = choose|j: int| 0 <= j < s.len() && s[j] == seq_max(s);
        assert(s[a] == s[0] && s[b] == s[0]);
    }
    if seq_min(s) == seq_max(s) {
        assert forall|i: int| 0 <= i < s.len() implies #[trigger] s[i] == s[0] by {
            assert(seq_min(s) <= s[i] <= seq_max(s));
            assert(seq_min(s) <= s[0] <= seq_max(s));
        }
    }
}

proof fn lemma_moves_order_total()
    ensures
        total_ordering(moves_order()),
{
}

/// A sorted rearrangement of a sample is its sorted form.
proof fn lemma_sorted_is_sorted_moves(s: Seq<u64>, t: Seq<u64>)
    requires
        t.to_multiset() == s.to_multiset(),
        sorted_by(t, moves_order()),
    ensures
        t == sorted_moves(s),
{
    lemma_moves_order_total();
    s.lemma_sort_by_ensures(moves_order());
    lemma_sorted_unique(t, sorted_moves(s), moves_order());
}

/// Relies on `slice::sort`: afterwards the vector holds the same values, in
/// non-decreasing order.
#[verifier::external_body]
fn sort_moves(v: &mut Vec<u64>)
    ensures
        final(v)@.to_multiset() == old(v)@.to_multiset(),
        sorted_by(final(v)@, moves_order()),
{
    v.sort();
}

/// The sample in non-decreasing order, as a new vector.
fn sorted_copy(values: &[u64]) -> (r: Vec<u64>)
    ensures
        r@ == sorted_moves(values@),
{
    let mut copy: Vec<u64> = Vec::new();
    let mut i: usize = 0;
    while i < values.len()
        invariant
            i <= values.len(),
            copy@ == values@.take(i as int),
        decreases values.len() - i,
    {
        copy.push(values[i]);
        i += 1;
        assert(copy@ =~= values@.take(i as int));
    }
    assert(values@.take(values.len() as int) =~= values@);
    sort_moves(&mut copy);
    proof {
        lemma_sorted_is_sorted_moves(values@, copy@);
    }
    copy
}

/// Whether the exact power sums of `values` fit in their `u128` fields, as
/// `SimulationStats::from_values` requires.
pub fn exact_moments_fit(values: &[u64]) -> (r: bool)
    ensures
        r == moments_fit(values@),
{
    let mut acc: u128 = 0;
    let mut i: usize = 0;
    while i < values.len()
        invariant
            i <= values.len(),
            acc == power_sum(values@.take(i as int), 4),
        decreases values.len() - i,
    {
        let x: u128 = values[i] as u128;
        proof {
            lemma_moment_terms(values@, i as int);
            lemma_pow_small(x as int);
            assert(x * x <= u128::MAX) by (nonlinear_arith)
                requires
                    x <= u64::MAX,
            ;
        }
        let x2: u128 = x * x;
        assert(x2 * x2 == x * x * x * x) by (nonlinear_arith)
            requires
                x2 == x * x,
        ;
        assert(power_sum(values@.take(i + 1), 4) == acc + pow(x as int, 4));
        assert(power_sum(values@.take(i + 1), 4) <= power_sum(values@, 4));
        assert(pow(x as int, 4) >= 0);
        match x2.checked_mul(x2) {
            None => {
                return false;
            },
            Some(x4) => match acc.checked_add(x4) {
                None => {
                    return false;
                },
                Some(next) => {
                    acc = next;
                },
            },
        }
        i += 1;
    }
    assert(values@.take(values.len() as int) =~= values@);
    true
}

impl SimulationStats {
    /// Summarizes a sample of move counts.
    ///
    /// Fails with `EmptyMoveArray` on an empty sample, and with
    /// `StatisticalError` when every outcome is the same (the standard
    /// deviation is then zero).
    pub fn from_values(values: &[u64]) -> (r: Result<Self, SimulationError>)
        requires
            moments_fit(values@),
        ensures
            values@.len() == 0 ==> r matches Err(SimulationError::EmptyMoveArray),
            values@.len() > 0 && all_same(values@) ==> r matches Err(
                SimulationError::StatisticalError(_),
            ),
            values@.len() > 0 && !all_same(values@) ==> r == Ok::<Self, SimulationError>(
                stats_of(values@),
            ),
    {
        let n = values.len();
        if n == 0 {
            return Err(SimulationError::EmptyMoveArray);
        }
        let mut min_moves: u64 = values[0];
        let mut max_moves: u64 = values[0];
        let mut sum: u128 = 0;
        let mut sum_squares: u128 = 0;
        let mut sum_cubes: u128 = 0;
        let mut sum_fourths: u128 = 0;
        let mut i: usize = 0;
        while i < n
            invariant
                n == values.len(),
                0 < n,
                i <= n,
                moments_fit(values@),
                i > 0 ==> min_moves == seq_min(values@.take(i as int)),
                i > 0 ==> max_moves == seq_max(values@.take(i as int)),
                i == 0 ==> min_moves == values[0] && max_moves == values[0],
                sum == power_sum(values@.take(i as int), 1),
                sum_squares == power_sum(values@.take(i as int), 2),
                sum_cubes == power_sum(values@.take(i as int), 3),
                sum_fourths == power_sum(values@.take(i as int), 4),
            decreases n - i,
        {
            let v = values[i];
            let x: u128 = v as u128;
            proof {
                lemma_moment_terms(values@, i as int);
                lemma_pow_small(x as int);
                assert(power_sum(values@.take(i + 1), 1) <= power_sum(values@, 4));
                assert(power_sum(values@.take(i + 1), 2) <= power_sum(values@, 4));
                assert(power_sum(values@.take(i + 1), 3) <= power_sum(values@, 4));
                assert(power_sum(values@.take(i + 1), 4) <= power_sum(values@, 4));
                assert(pow(x as int, 2) >= 0 && pow(x as int, 3) >= 0 && pow(x as int, 4) >= 0);
                if i > 0 {
                    lemma_min_max_step(values@, i as int);
                } else {
                    assert(values@.take(1).len() == 1);
                }
            }
            let x2: u128 = x * x;
            let x3: u128 = x2 * x;
            let x4: u128 = x3 * x;
            sum = sum + x;
            sum_squares = sum_squares + x2;
            sum_cubes = sum_cubes + x3;
            sum_fourths = sum_fourths + x4;
            if v < min_moves {
                min_moves = v;
            }
            if v > max_moves {
                max_moves = v;
            }
            i += 1;
        }
        assert(values@.take(n as int) =~= values@);
        proof {
            lemma_all_same_iff_extremes_meet(values@);
        }
        if min_moves == max_moves {
            return Err(SimulationError::StatisticalError("Standard deviation is zero".to_owned()));
        }
        let mut min_moves_count: u64 = 0;
        let mut j: usize = 0;
        proof {
            broadcast use group_to_multiset_ensures;

            assert(values@.take(0) =~= Seq::<u64>::empty());
        }
        while j < n
            invariant
                n == values.len(),
                j <= n,
                min_moves_count == values@.take(j as int).to_multiset().count(min_moves),
            decreases n - j,
        {
            proof {
                broadcast use group_to_multiset_ensures;

                assert(values@.take(j + 1) =~= values@.take(j as int).push(values@[j as int]));
                assert(values@.take(j as int).to_multiset().len() == j);
            }
            if values[j] == min_moves {
                min_moves_count = min_moves_count + 1;
            }
            j += 1;
        }
        let sorted = sorted_copy(values);
        proof {
            broadcast use group_to_multiset_ensures;

            values@.lemma_sort_by_ensures(moves_order());
            assert(sorted@.len() == sorted@.to_multiset().len());
        }
        let median_low = sorted[(n - 1) / 2];
        let median_high = sorted[n / 2];
        Ok(SimulationStats {
            count: n as u64,
            min_moves,
            max_moves,
            min_moves_count,
            sum,
            sum_squares,
            sum_cubes,
            sum_fourths,
            median_low,
            median_high,
        })
    }
}

proof fn lemma_power_sum_concat(a: Seq<u64>, b: Seq<u64>, k: nat)
    ensures
        power_sum(a + b, k) == power_sum(a, k) + power_sum(b, k),
    decreases b.len(),
{
    if b.len() > 0 {
        assert((a + b).drop_last() =~= a + b.drop_last());
        lemma_power_sum_concat(a, b.drop_last(), k);
    } else {
        assert(a + b =~= a);
    }
}

proof fn lemma_power_sum_reverse(s: Seq<u64>, k: nat)
    ensures
        power_sum(s.reverse(), k) == power_sum(s, k),
    decreases s.len(),
{
    if s.len() > 0 {
        let l = seq![s.last()];
        assert(s.reverse() =~= l + s.drop_last().reverse());
        lemma_power_sum_concat(l, s.drop_last().reverse(), k);
        lemma_power_sum_reverse(s.drop_last(), k);
        assert(l.drop_last() =~= Seq::<u64>::empty());
        assert(power_sum(l, k) == power_sum(l.drop_last(), k) + pow(s.last() as int, k));
    } else {
        assert(s.reverse().len() == 0);
    }
}

/// An outcome that is no larger (no smaller) than every other is the minimum
/// (maximum).
proof fn lemma_extremes_unique(s: Seq<u64>, lo: u64, hi: u64)
    requires
        s.len() > 0,
        s.contains(lo),
        s.contains(hi),
        forall|i: int| 0 <= i < s.len() ==> lo <= #[trigger] s[i] <= hi,
    ensures
        lo == seq_min(s),
        hi == seq_max(s),
{
    lemma_min_max_bounds(s);
    let a = choose|j: int| 0 <= j < s.len() && s[j] == seq_min(s);
    let b = choose|j: int| 0 <= j < s.len() && s[j] == seq_max(s);
    let c = choose|j: int| 0 <= j < s.len() && s[j] == lo;
    let d = choose|j: int| 0 <= j < s.len() && s[j] == hi;
    assert(lo <= s[a] && seq_min(s) <= s[c]);
    assert(hi >= s[b] && seq_max(s) >= s[d]);
}

/// Summarizing a sample, or the same sample in reverse order, gives the same
/// record: every power sum, both extremes, the count of minima and the median
/// agree, and so do the conditions under which summarizing fails.
pub proof fn lemma_summary_order_independent(s: Seq<u64>)
    ensures
        s.reverse().len() == s.len(),
        all_same(s.reverse()) == all_same(s),
        moments_fit(s.reverse()) == moments_fit(s),
        s.len() > 0 ==> stats_of(s.reverse()) == stats_of(s),
{
    let r = s.reverse();
    lemma_power_sum_reverse(s, 1);
    lemma_power_sum_reverse(s, 2);
    lemma_power_sum_reverse(s, 3);
    lemma_power_sum_reverse(s, 4);
    s.lemma_reverse_to_multiset();
    if s.len() > 0 {
        lemma_min_max_bounds(s);
        lemma_min_max_bounds(r);
        assert forall|i: int| 0 <= i < r.len() implies seq_min(s) <= #[trigger] r[i] <= seq_max(
            s,
        ) by {
            assert(r[i] == s[s.len() - 1 - i]);
        }
        let a = choose|j: int| 0 <= j < s.len() && s[j] == seq_min(s);
        let b = choose|j: int| 0 <= j < s.len() && s[j] == seq_max(s);
        assert(r[s.len() - 1 - a] == seq_min(s));
        assert(r[s.len() - 1 - b] == seq_max(s));
        lemma_extremes_unique(r, seq_min(s), seq_max(s));
        lemma_all_same_iff_extremes_meet(s);
        lemma_all_same_iff_extremes_meet(r);
        s.lemma_sort_by_ensures(moves_order());
        lemma_sorted_is_sorted_moves(r, sorted_moves(s));
    }
}

} // verus!
