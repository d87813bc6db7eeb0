//! Particles.

use crate::float::{ArgminFloat, Real};
use crate::ordering::Precedence;
use crate::particleswarm::position::Position;
use vstd::prelude::*;

verus! {

/// A single particle
#[derive(Clone, Debug, Eq, PartialEq)]
pub struct Particle<T, F> {
    /// Position of particle
    pub position: T,
    /// Velocity of particle
    pub velocity: T,
    /// Cost of particle
    pub cost: F,
    /// Best position of particle so far
    pub best_position: T,
    /// Best cost of particle so far
    pub best_cost: F,
}

/// The abstract value of a particle.
#[verifier::ext_equal]
pub struct ParticleView<V, F> {
    /// Position of particle
    pub position: V,
    /// Velocity of particle
    pub velocity: V,
    /// Cost of particle
    pub cost: F,
    /// Best position of particle so far
    pub best_position: V,
    /// Best cost of particle so far
    pub best_cost: F,
}

impl<T: View, F> View for Particle<T, F> {
    type V = ParticleView<T::V, F>;

    open spec fn view(&self) -> ParticleView<T::V, F> {
        ParticleView {
            position: self.position@,
            velocity: self.velocity@,
            cost: self.cost,
            best_position: self.best_position@,
            best_cost: self.best_cost,
        }
    }
}

/// The abstract values of some particles.
pub open spec fn views<T: View, F>(particles: Seq<Particle<T, F>>) -> Seq<ParticleView<T::V, F>> {
    particles.map_values(|p: Particle<T, F>| p@)
}

/// A particle that has been nowhere else.
pub open spec fn new_particle<V, F>(position: V, cost: F, velocity: V) -> ParticleView<V, F> {
    ParticleView { position, velocity, cost, best_position: position, best_cost: cost }
}

impl<T: Position<F>, F: ArgminFloat> Particle<T, F> {
    /// Create a new particle with a given position, cost and velocity.
    pub fn new(position: T, cost: F, velocity: T) -> (r: Particle<T, F>)
        ensures
            r@ == new_particle(position@, cost, velocity@),
    {
        Particle {
            position: position.duplicate(),
            velocity,
            cost,
            best_position: position,
            best_cost: cost,
        }
    }

    /// A copy.
    pub fn duplicate(&self) -> (r: Particle<T, F>)
        ensures
            r@ == self@,
    {
        Particle {
            position: self.position.duplicate(),
            velocity: self.velocity.duplicate(),
            cost: self.cost,
            best_position: self.best_position.duplicate(),
            best_cost: self.best_cost,
        }
    }
}

/// Which of two particles costs less.
pub open spec fn by_cost<V, F: Real>() -> spec_fn(ParticleView<V, F>, ParticleView<V, F>) -> bool {
    |a: ParticleView<V, F>, b: ParticleView<V, F>| a.cost.spec_less(b.cost)
}

/// Orders particles by their cost.
pub struct ByCost;

impl<T: Position<F>, F: ArgminFloat> Precedence<Particle<T, F>> for ByCost {
    open spec fn order(&self) -> spec_fn(Particle<T, F>, Particle<T, F>) -> bool {
        |a: Particle<T, F>, b: Particle<T, F>| by_cost()(a@, b@)
    }

    open spec fn covers(&self, a: Particle<T, F>) -> bool {
        true
    }

    fn precedes(&self, a: &Particle<T, F>, b: &Particle<T, F>) -> (r: bool) {
        a.cost.less(b.cost)
    }
}

} // verus!
