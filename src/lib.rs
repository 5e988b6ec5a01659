//! Monte Carlo simulations of small discrete random processes, with the
//! Snakes-and-Ladders board modelled as a Markov chain, and exact summary
//! statistics over the move counts that the trials produce.
pub mod cube;
pub mod octo;
mod rng;
pub mod shuffle;
pub mod simplex;
pub mod snl;
pub mod stats;
