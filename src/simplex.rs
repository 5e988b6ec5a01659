//! The hitting time of a simplex walk: each move jumps to a vertex drawn
//! uniformly among all `n`, until the walk reaches the last vertex.
use crate::rng::draw_below;
use crate::stats::SimulationError;
use vstd::prelude::*;

verus! {

/// The settings of a simplex run.
pub struct SimplexArgs {
    /// Number of walks.
    pub num_iterations: u64,
    /// Number of vertices of the simplex.
    pub dim: u64,
}

impl SimplexArgs {
    /// Checks the settings: at least one walk and at least one vertex.
    pub fn validate(&self) -> (r: Result<(), SimulationError>)
        ensures
            self.num_iterations == 0 ==> r matches Err(SimulationError::InvalidIterationCount(0)),
            self.num_iterations > 0 && self.dim == 0 ==> r matches Err(
                SimulationError::InvalidTarget(0),
            ),
            self.num_iterations > 0 && self.dim > 0 ==> r is Ok,
    {
        if self.num_iterations == 0 {
            return Err(SimulationError::InvalidIterationCount(self.num_iterations));
        }
        if self.dim == 0 {
            return Err(SimulationError::InvalidTarget(0));
        }
        Ok(())
    }
}

/// Walks from vertex `0` until vertex `n - 1` and returns the number of moves.
pub fn simulate_single_path(n: u64) -> (r: Result<u64, SimulationError>)
    requires
        n >= 1,
    ensures
        n == 1 ==> r == Ok::<u64, SimulationError>(0),
        n > 1 ==> match r {
            Ok(moves) => moves >= 1,
            Err(e) => e matches SimulationError::MoveCountOverflow,
        },
{
    let mut rng = rand::thread_rng();
    let mut x: u64 = 0;
    let mut count: u64 = 0;
    while x != n - 1
        invariant
            n >= 1,
            count == 0 ==> x == 0,
            n == 1 ==> count == 0,
        decreases u64::MAX - count,
    {
        if count == u64::MAX {
            return Err(SimulationError::MoveCountOverflow);
        }
        x = draw_below(&mut rng, 0, n);
        count += 1;
    }
    Ok(count)
}

} // verus!
