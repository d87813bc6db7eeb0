//! The NSGA-II multi-objective solver.

pub mod crowding;
pub mod distribution;
pub mod dominance;
pub mod elitism;
pub mod extremes;
pub mod generation;
pub mod individual;
pub mod selection;
pub mod solver;
pub mod sorting;
pub mod variation;

pub use individual::Individual;
pub use solver::NsgaII;
