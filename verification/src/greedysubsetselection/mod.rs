//! Greedy subset selection.
//!
//! Greedy subset selection minimizes a user-supplied cost over sorted subsets of item indices. It
//! combines pair bootstrap, greedy growth, seeded random restarts and first-improvement 2-opt
//! local search.

pub mod cost;
pub mod growth;
pub mod knee;
pub mod local;
pub mod pareto;
pub mod solver;
pub mod starts;
pub mod subset;

pub use cost::{Subset, SubsetSelectionCost};
pub use pareto::{solve_pareto, ParetoFront, ParetoSelection};
pub use solver::{GreedySubsetSelection, SelectionState, SizeMode};
pub use starts::solve;
