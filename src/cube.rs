//! A random walk on the corners of a hypercube: each move flips one
//! coordinate chosen at random, until the walk reaches the target corner.
use crate::rng::choose_element;
use crate::stats::SimulationError;
use vstd::arithmetic::power2::{
    lemma2_to64, lemma_pow2_pos, lemma_pow2_strictly_increases, lemma_pow2_unfold, pow2,
};
use vstd::prelude::*;

verus! {

/// The number of corners of a cube of dimension `d`: `2` to the power `d`.
pub open spec fn corners(d: nat) -> nat {
    pow2(d)
}

/// The number of set bits of `x`: how many coordinates two corners differ
/// in, when `x` is their exclusive or.
pub open spec fn bit_count(x: u64) -> nat
    decreases x,
{
    if x == 0 {
        0
    } else {
        (x % 2) as nat + bit_count(x / 2)
    }
}

/// Flipping one bit changes the number of set bits by exactly one.
proof fn lemma_bit_count_flip(x: u64, d: u64)
    requires
        d < 64,
    ensures
        bit_count(x ^ (1u64 << d)) == bit_count(x) + 1 || bit_count(x ^ (1u64 << d)) + 1
            == bit_count(x),
    decreases d,
{
    let y = x ^ (1u64 << d);
    assert(x / 2 == x >> 1 && x % 2 == x & 1) by (bit_vector);
    assert(y / 2 == y >> 1 && y % 2 == y & 1) by (bit_vector);
    if d == 0 {
        assert((x ^ (1u64 << 0u64)) >> 1 == x >> 1 && (x ^ (1u64 << 0u64)) & 1 == 1 - (x & 1))
            by (bit_vector);
    } else {
        let e: u64 = (d - 1) as u64;
        assert((x ^ (1u64 << d)) >> 1 == (x >> 1) ^ (1u64 << e) && (x ^ (1u64 << d)) & 1 == x & 1)
            by (bit_vector)
            requires
                0 < d < 64,
                e == d - 1,
        ;
        lemma_bit_count_flip(x / 2, e);
    }
}

/// The settings of a hypercube run.
pub struct CubeArgs {
    /// Number of walks.
    pub num_iterations: u64,
    /// Dimension of the cube.
    pub dim: u8,
    /// Corner that each walk starts from.
    pub start: usize,
}

impl CubeArgs {
    /// Checks the settings: at least one walk, a dimension from 1 to 63, and
    /// a start corner of the cube.
    pub fn validate(&self) -> (r: Result<(), SimulationError>)
        ensures
            self.num_iterations == 0 ==> r matches Err(SimulationError::InvalidIterationCount(0)),
            self.num_iterations > 0 && (self.dim == 0 || self.dim >= 64) ==> (r matches Err(
                SimulationError::InvalidTarget(t),
            ) && t == self.dim),
            self.num_iterations > 0 && 1 <= self.dim < 64 ==> (r is Ok <==> self.start
                < corners(self.dim as nat)),
            self.num_iterations > 0 && 1 <= self.dim < 64 && self.start >= corners(
                self.dim as nat,
            ) ==> (r matches Err(SimulationError::InvalidTarget(t)) && t == self.start as i64),
    {
        if self.num_iterations == 0 {
            return Err(SimulationError::InvalidIterationCount(self.num_iterations));
        }
        if self.dim == 0 || self.dim >= 64 {
            return Err(SimulationError::InvalidTarget(self.dim as i64));
        }
        let count = corner_count(self.dim);
        if self.start as u64 >= count {
            return Err(SimulationError::InvalidTarget(self.start as i64));
        }
        Ok(())
    }

    /// The coordinates that a move may flip: `0..dim`.
    pub fn dimensions(&self) -> (r: Vec<u8>)
        ensures
            r@ == Seq::new(self.dim as nat, |i: int| i as u8),
    {
        let mut dims: Vec<u8> = Vec::new();
        let mut d: u8 = 0;
        while d < self.dim
            invariant
                d <= self.dim,
                dims@ == Seq::new(d as nat, |i: int| i as u8),
            decreases self.dim - d,
        {
            dims.push(d);
            d += 1;
            assert(dims@ =~= Seq::new(d as nat, |i: int| i as u8));
        }
        dims
    }

    /// The corner that the walks aim for: every coordinate set.
    pub fn end_corner(&self) -> (r: u64)
        requires
            1 <= self.dim < 64,
        ensures
            r == corners(self.dim as nat) - 1,
    {
        proof {
            lemma_corners_fit(self.dim as nat);
        }
        corner_count(self.dim) - 1
    }
}

/// A cube of dimension below 64 has at least one corner, and its corner
/// count fits in a `u64`.
proof fn lemma_corners_fit(d: nat)
    requires
        d < 64,
    ensures
        1 <= corners(d) < 0x1_0000_0000_0000_0000,
{
    lemma2_to64();
    lemma_pow2_pos(d);
    lemma_pow2_strictly_increases(d, 64);
}

/// The number of corners of a cube of dimension `dim`.
fn corner_count(dim: u8) -> (r: u64)
    requires
        dim < 64,
    ensures
        r == corners(dim as nat),
{
    let mut c: u64 = 1;
    let mut d: u8 = 0;
    proof {
        lemma2_to64();
    }
    while d < dim
        invariant
            d <= dim < 64,
            c == corners(d as nat),
        decreases dim - d,
    {
        proof {
            lemma_pow2_unfold((d + 1) as nat);
            lemma_corners_fit((d + 1) as nat);
        }
        c = c * 2;
        d += 1;
    }
    c
}

/// Walks from corner `start` until corner `end`, flipping at each move one
/// coordinate drawn from `possible_moves`, and returns the number of moves.
pub fn simulate_single_path(possible_moves: &Vec<u8>, start: u64, end: u64) -> (r: Result<
    u64,
    SimulationError,
>)
    requires
        possible_moves.len() > 0,
        forall|i: int| 0 <= i < possible_moves.len() ==> #[trigger] possible_moves[i] < 64,
    ensures
        start == end ==> r == Ok::<u64, SimulationError>(0),
        start != end ==> match r {
            Ok(moves) => moves >= 1 && moves >= bit_count(start ^ end) && moves % 2 == bit_count(
                start ^ end,
            ) % 2,
            Err(e) => e matches SimulationError::MoveCountOverflow,
        },
{
    let mut rng = rand::thread_rng();
    let mut current_corner: u64 = start;
    let mut move_count: u64 = 0;
    assert(start ^ start == 0) by (bit_vector);
    while current_corner != end
        invariant
            possible_moves.len() > 0,
            forall|i: int| 0 <= i < possible_moves.len() ==> #[trigger] possible_moves[i] < 64,
            move_count == 0 ==> current_corner == start,
            start == end ==> move_count == 0,
            bit_count(start ^ current_corner) <= move_count,
            (move_count + bit_count(start ^ current_corner)) % 2 == 0,
        decreases u64::MAX - move_count,
    {
        if move_count == u64::MAX {
            return Err(SimulationError::MoveCountOverflow);
        }
        let dimension = match choose_element(&mut rng, possible_moves) {
            Some(d) => d,
            None => {
                // The coordinate list is not empty, so a draw always yields one.
                proof {
                    assert(false);
                }
                return Err(SimulationError::MoveCountOverflow);
            },
        };
        proof {
            let i = choose|i: int| 0 <= i < possible_moves.len() && possible_moves[i] == dimension;
        }
        proof {
            let b = 1u64 << dimension;
            let c = current_corner;
            assert(start ^ (c ^ b) == (start ^ c) ^ b) by (bit_vector);
            lemma_bit_count_flip(start ^ c, dimension as u64);
        }
        current_corner = current_corner ^ (1u64 << dimension);
        move_count += 1;
    }
    Ok(move_count)
}

} // verus!
