//! The "octopus" walk on the signed integers `-target..=target` without zero:
//! from `-target`, each move draws a magnitude other than the current one and
//! a random sign, until the walk stands on `+target`.
use crate::rng::{draw_below, flip_coin};
use crate::stats::SimulationError;
use vstd::prelude::*;

verus! {

/// The settings of an octopus run.
pub struct OctoArgs {
    /// Number of walks.
    pub num_iterations: u64,
    /// The target value that ends a walk.
    pub end: i64,
}

impl OctoArgs {
    /// Checks the settings: at least one walk, and a target of at least 2
    /// (from `-1` a walk could never move, since its only magnitude is taken).
    pub fn validate(&self) -> (r: Result<(), SimulationError>)
        ensures
            self.num_iterations == 0 ==> r matches Err(SimulationError::InvalidIterationCount(0)),
            self.num_iterations > 0 && self.end <= 1 ==> (r matches Err(
                SimulationError::InvalidTarget(t),
            ) && t == self.end),
            self.num_iterations > 0 && self.end > 1 ==> r is Ok,
    {
        if self.num_iterations == 0 {
            return Err(SimulationError::InvalidIterationCount(self.num_iterations));
        }
        if self.end <= 1 {
            return Err(SimulationError::InvalidTarget(self.end));
        }
        Ok(())
    }
}

/// The magnitude that a draw from `1..target` stands for when the walk's
/// current magnitude is `current`: draws at or above `current` move up by
/// one, so that every magnitude of `1..=target` but `current` comes from
/// exactly one draw.
pub fn skip_current(draw: u64, current: u64) -> (r: u64)
    requires
        draw < u64::MAX,
    ensures
        r == if draw >= current {
            draw + 1
        } else {
            draw as int
        },
        r != current,
{
    if draw >= current {
        draw + 1
    } else {
        draw
    }
}

/// Walks from `-target` until `+target` and returns the number of moves.
///
/// Each move draws the new magnitude uniformly among `1..=target` other than
/// the current magnitude (a draw among the `target - 1` others, shifted past
/// the current one), then a fair sign. The first move cannot take the
/// target's magnitude, so a walk makes at least two moves.
pub fn simulate_single_path(target: i64) -> (r: Result<u64, SimulationError>)
    ensures
        target <= 1 ==> (r matches Err(SimulationError::InvalidTarget(t)) && t == target),
        target > 1 ==> match r {
            Ok(moves) => moves >= 2,
            Err(e) => e matches SimulationError::MoveCountOverflow,
        },
{
    if target <= 1 {
        return Err(SimulationError::InvalidTarget(target));
    }
    let mut rng = rand::thread_rng();
    let mut current: i64 = -target;
    let mut moves: u64 = 0;
    while current != target
        invariant
            2 <= target,
            -target <= current <= target,
            current != 0,
            moves == 0 ==> current == -target,
            moves <= 1 ==> current != target,
        decreases u64::MAX - moves,
    {
        if moves == u64::MAX {
            return Err(SimulationError::MoveCountOverflow);
        }
        let abs_current: u64 = if current < 0 {
            (-current) as u64
        } else {
            current as u64
        };
        let draw = draw_below(&mut rng, 1, target as u64);
        let magnitude = skip_current(draw, abs_current);
        current = if flip_coin(&mut rng) {
            magnitude as i64
        } else {
            -(magnitude as i64)
        };
        moves += 1;
    }
    Ok(moves)
}

} // verus!
