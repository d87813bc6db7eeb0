//! Mutation of positions.

use crate::float;
use crate::float::{ArgminFloat, Real};
use crate::particleswarm::motion;
use crate::particleswarm::motion::hold;
use crate::particleswarm::position::Position;
use crate::particleswarm::solver::ParticleSwarm;
use crate::particleswarm::strategy::MutationStrategy;
use crate::random;
use crate::random::NoiseSource;
use vstd::prelude::*;

verus! {

/// `position`, moved by a fraction of the range of the search space and held inside it.
pub open spec fn perturbed<P: Position<F>, F: ArgminFloat>(
    position: P::V,
    low: P::V,
    high: P::V,
    noise: F::Wide,
) -> P::V {
    motion::held::<P, F>(
        P::sum(
            position,
            P::scaled(motion::extent::<P, F>(low, high), F::spec_narrow(noise)),
        ),
        low,
        high,
    )
}

/// The noise from the distribution of a strategy that follows from a stream of words, and what is
/// left of the stream.
pub open spec fn noise_from<W: Real, R: NoiseSource<W>>(
    strategy: MutationStrategy<W>,
    words: Map<nat, u64>,
) -> (W, Map<nat, u64>) {
    match strategy {
        MutationStrategy::Disabled => (float::zero(), words),
        MutationStrategy::Gaussian(sigma) => R::normal_from(words, sigma),
        MutationStrategy::Cauchy(scale) => R::cauchy_from(words, scale),
    }
}

/// Whether `noise` may be drawn from the distribution of a strategy.
pub open spec fn may_be_noise<W: Real, R: NoiseSource<W>>(
    strategy: MutationStrategy<W>,
    noise: W,
) -> bool {
    exists|words: Map<nat, u64>| noise == (#[trigger] noise_from::<W, R>(strategy, words)).0
}

/// What becomes of `position` by a stream of words, and what is left of the stream: the first word
/// decides whether to mutate it, and the noise follows from the others.
pub open spec fn mutated_by<P: Position<F>, F: ArgminFloat, R: NoiseSource<F::Wide>>(
    swarm: ParticleSwarm<P, F, R>,
    position: P::V,
    words: Map<nat, u64>,
) -> (P::V, Map<nat, u64>) {
    let after = random::ahead(words, 1);
    if float::at_most(swarm.mutation_probability.spec_widen(), random::unit_at(words, 0))
        || swarm.mutation_strategy is Disabled {
        (position, after)
    } else {
        let (noise, rest) = noise_from::<F::Wide, R>(swarm.mutation_strategy, after);
        (perturbed::<P, F>(position, swarm.bounds.0@, swarm.bounds.1@, noise), rest)
    }
}

/// Whether `r` may become of `position` by noise from the distribution of the strategy.
pub open spec fn is_perturbed<P: Position<F>, F: ArgminFloat, R: NoiseSource<F::Wide>>(
    swarm: ParticleSwarm<P, F, R>,
    position: P::V,
    r: P::V,
) -> bool {
    exists|noise: F::Wide|
        may_be_noise::<F::Wide, R>(swarm.mutation_strategy, noise) && r
            == #[trigger] perturbed::<P, F>(position, swarm.bounds.0@, swarm.bounds.1@, noise)
}

/// Whether `r` may become of `position` where `chance` was drawn to decide whether to mutate it.
pub open spec fn is_mutation_at<P: Position<F>, F: ArgminFloat, R: NoiseSource<F::Wide>>(
    swarm: ParticleSwarm<P, F, R>,
    position: P::V,
    chance: F::Wide,
    r: P::V,
) -> bool {
    if float::at_most(swarm.mutation_probability.spec_widen(), chance)
        || swarm.mutation_strategy is Disabled {
        r == position
    } else {
        is_perturbed(swarm, position, r)
    }
}

/// Whether `r` may become of `position` by mutation.
pub open spec fn is_mutation<P: Position<F>, F: ArgminFloat, R: NoiseSource<F::Wide>>(
    swarm: ParticleSwarm<P, F, R>,
    position: P::V,
    r: P::V,
) -> bool {
    exists|chance: F::Wide|
        random::is_unit(chance) && #[trigger] is_mutation_at(swarm, position, chance, r)
}

/// Whether chance may decide that a position is mutated.
pub open spec fn may_mutate<P: Position<F>, F: ArgminFloat, R>(
    swarm: ParticleSwarm<P, F, R>,
) -> bool {
    exists|chance: F::Wide| #[trigger]
        random::is_unit(chance) && !float::at_most(
            swarm.mutation_probability.spec_widen(),
            chance,
        )
}

/// Whether positions can be mutated: the bounds have the same number of coordinates, and the
/// distribution is valid if it may be needed.
pub open spec fn can_mutate<P: Position<F>, F: ArgminFloat, R>(
    swarm: ParticleSwarm<P, F, R>,
) -> bool {
    &&& P::dimension(swarm.bounds.0@) > 0
    &&& P::dimension(swarm.bounds.0@) == P::dimension(swarm.bounds.1@)
    &&& may_mutate(swarm) ==> swarm.mutation_strategy.is_valid()
}

/// What becomes of a position inside the bounds by mutation is inside them if they are in order.
pub proof fn law_mutation_stays_inside<P: Position<F>, F: ArgminFloat, R: NoiseSource<F::Wide>>(
    swarm: ParticleSwarm<P, F, R>,
    position: P::V,
    r: P::V,
)
    requires
        P::dimension(swarm.bounds.0@) == P::dimension(swarm.bounds.1@),
        P::dimension(position) == P::dimension(swarm.bounds.0@),
        P::is_inside(swarm.bounds.0@, swarm.bounds.0@, swarm.bounds.1@),
        P::is_inside(swarm.bounds.0@, position, swarm.bounds.1@),
        is_mutation(swarm, position, r),
    ensures
        P::is_inside(swarm.bounds.0@, r, swarm.bounds.1@),
{
    let (low, high) = (swarm.bounds.0@, swarm.bounds.1@);
    if is_perturbed(swarm, position, r) {
        let noise = choose|noise: F::Wide|
            may_be_noise::<F::Wide, R>(swarm.mutation_strategy, noise) && r
                == #[trigger] perturbed::<P, F>(position, low, high, noise);
        let range = motion::extent::<P, F>(low, high);
        P::dimension_laws(high, low, float::one());
        P::dimension_laws(range, range, F::spec_narrow(noise));
        P::dimension_laws(position, P::scaled(range, F::spec_narrow(noise)), float::one());
        P::clamp_laws(P::sum(position, P::scaled(range, F::spec_narrow(noise))), low, high);
    }
}

/// With probability zero no position is mutated.
pub proof fn law_probability_zero_never_mutates<
    P: Position<F>,
    F: ArgminFloat,
    R: NoiseSource<F::Wide>,
>(swarm: ParticleSwarm<P, F, R>, position: P::V, r: P::V)
    requires
        float::at_most(swarm.mutation_probability.spec_widen(), float::zero()),
        is_mutation(swarm, position, r),
    ensures
        r == position,
{
    let chance = choose|chance: F::Wide|
        random::is_unit(chance) && #[trigger] is_mutation_at(swarm, position, chance, r);
    random::law_unit_within::<F>(chance);
    F::Wide::order_laws(swarm.mutation_probability.spec_widen(), float::zero(), chance);
}

/// With probability one every position is mutated, unless mutation is disabled.
pub proof fn law_probability_one_always_mutates<
    P: Position<F>,
    F: ArgminFloat,
    R: NoiseSource<F::Wide>,
>(swarm: ParticleSwarm<P, F, R>, position: P::V, r: P::V)
    requires
        float::at_most(float::one(), swarm.mutation_probability.spec_widen()),
        !(swarm.mutation_strategy is Disabled),
        is_mutation(swarm, position, r),
    ensures
        is_perturbed(swarm, position, r),
{
    let probability = swarm.mutation_probability.spec_widen();
    let chance = choose|chance: F::Wide|
        random::is_unit(chance) && #[trigger] is_mutation_at(swarm, position, chance, r);
    random::law_unit_within::<F>(chance);
    F::Wide::order_laws(chance, float::one(), probability);
    F::Wide::order_laws(probability, chance, probability);
}

impl<P: Position<F>, F: ArgminFloat, R> ParticleSwarm<P, F, R> {
    /// `position`, moved by a fraction of the range of the search space and held inside it.
    pub fn perturb(&self, position: &P, noise: F::Wide) -> (r: P)
        requires
            P::dimension(self.bounds.0@) > 0,
            P::dimension(self.bounds.0@) == P::dimension(self.bounds.1@),
            P::dimension(position@) == P::dimension(self.bounds.0@),
        ensures
            r@ == perturbed::<P, F>(position@, self.bounds.0@, self.bounds.1@, noise),
            P::dimension(r@) == P::dimension(position@),
            P::is_inside(self.bounds.0@, self.bounds.0@, self.bounds.1@) ==> P::is_inside(
                self.bounds.0@,
                r@,
                self.bounds.1@,
            ),
    {
        let range = self.bounds.1.minus(&self.bounds.0);
        let perturbation = range.times(F::narrow(noise));
        proof {
            P::dimension_laws(self.bounds.1@, self.bounds.0@, float::one());
            P::dimension_laws(range@, range@, F::spec_narrow(noise));
            P::dimension_laws(position@, perturbation@, float::one());
        }
        let moved = position.plus(&perturbation);
        hold(&moved, &self.bounds.0, &self.bounds.1)
    }
}

impl<P: Position<F>, F: ArgminFloat, R: NoiseSource<F::Wide>> ParticleSwarm<
    P,
    F,
    R,
> {
    /// Apply mutation to a particle position
    ///
    /// This method is called based on the mutation application strategy to mutate
    /// particle positions. The mutation respects the mutation probability parameter.
    pub fn apply_mutation(&mut self, position: &P) -> (r: P)
        requires
            can_mutate(*old(self)),
            P::dimension(position@) == P::dimension(old(self).bounds.0@),
        ensures
            motion::same_settings(*old(self), *final(self)),
            (r@, random::stream(final(self).rng_generator)) == mutated_by(
                *old(self),
                position@,
                random::stream(old(self).rng_generator),
            ),
            is_mutation(*old(self), position@, r@),
            P::dimension(r@) == P::dimension(position@),
            P::is_inside(old(self).bounds.0@, old(self).bounds.0@, old(self).bounds.1@) && P::is_inside(
                old(self).bounds.0@,
                position@,
                old(self).bounds.1@,
            ) ==> P::is_inside(old(self).bounds.0@, r@, old(self).bounds.1@),
    {
        let chance: F::Wide = random::unit_draw(&mut self.rng_generator);
        let r = if float::is_at_most(self.mutation_probability.widen(), chance) {
            position.duplicate()
        } else {
            match self.mutation_strategy {
                MutationStrategy::Disabled => position.duplicate(),
                MutationStrategy::Gaussian(sigma) => {
                    let ghost words = random::stream(self.rng_generator);
                    let noise = self.rng_generator.normal(sigma);
                    assert(noise == noise_from::<F::Wide, R>(self.mutation_strategy, words).0);
                    let r = self.perturb(position, noise);
                    assert(r@ == perturbed::<P, F>(
                        position@,
                        self.bounds.0@,
                        self.bounds.1@,
                        noise,
                    ));
                    r
                },
                MutationStrategy::Cauchy(scale) => {
                    let ghost words = random::stream(self.rng_generator);
                    let noise = self.rng_generator.cauchy(scale);
                    assert(noise == noise_from::<F::Wide, R>(self.mutation_strategy, words).0);
                    let r = self.perturb(position, noise);
                    assert(r@ == perturbed::<P, F>(
                        position@,
                        self.bounds.0@,
                        self.bounds.1@,
                        noise,
                    ));
                    r
                },
            }
        };
        assert(is_mutation_at(*old(self), position@, chance, r@));
        r
    }
}

} // verus!
