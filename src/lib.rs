//! A metaheuristic optimization engine: a hierarchical, lexicographically ordered objective
//! over scalar values (counts, fixed-point reals, durations), neighborhood exploration
//! strategies (sequential and on several threads), and solvers (local search, tabu search,
//! threshold accepting, simulated annealing) that drive the improvement loop.
//!
//! Calendar dates, clock times and durations are provided by [`converters`], [`duration`] and
//! [`date_time`].
use vstd::prelude::*;

pub mod converters;
pub mod text;
pub mod duration;
pub mod date_time;
pub mod base_value;
pub mod coefficient;
pub mod objective_value;
pub mod objective;
pub mod neighborhood;
pub mod local_improver;
pub mod clock;
pub mod solver;
pub mod tabu_search;
pub mod threshold_accepting;
pub mod simulated_annealing;
pub mod parallel;
pub mod parallel_solvers;

pub use local_improver::LocalImprover as ParallelLocalImprover;
pub use neighborhood::TabuNeighborhood as ParallelTabuNeighborhood;
pub use tabu_search::TabuImprover as ParallelTabuImprover;

verus! {

} // verus!
