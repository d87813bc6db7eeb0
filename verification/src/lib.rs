//! Population-based and combinatorial optimization solvers with machine-checked contracts.

pub mod counting;
pub mod error;
pub mod exact;
pub mod float;
pub mod greedysubsetselection;
pub mod nsgaii;
pub mod ordering;
pub mod particleswarm;
pub mod problem;
pub mod random;
pub mod text;
pub mod whole;

pub use error::Error;
pub use float::{ArgminFloat, Order, Real};
pub use problem::{CostFunction, MultiObjectiveCostFunction};
pub use random::{NoiseSource, RandomSource, RangeSource};
pub use vstd::view::View;
pub use whole::Whole;
