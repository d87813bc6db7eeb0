//! Particle Swarm Optimization (PSO).
//!
//! Particle Swarm Optimization is a population-based metaheuristic that simulates the social
//! behavior of bird flocking or fish schooling. Each particle in the swarm represents a potential
//! solution and moves through the search space influenced by its own best position and the best
//! position found by the swarm.

pub mod geometry;
pub mod guarantees;
pub mod initialization;
pub mod iteration;
pub mod motion;
pub mod mutation;
pub mod particle;
pub mod position;
pub mod solver;
pub mod standing;
pub mod strategy;

pub use iteration::SwarmState;
pub use particle::Particle;
pub use position::Position;
pub use solver::ParticleSwarm;
pub use strategy::{
    AccelerationCoefficientStrategy, InertiaWeightStrategy, InitializationStrategy,
    MutationApplication, MutationStrategy,
};
