//! How particles move.

use crate::float;
use crate::float::ArgminFloat;
use crate::particleswarm::particle::{Particle, ParticleView};
use crate::particleswarm::position::Position;
use crate::particleswarm::solver::ParticleSwarm;
use crate::random;
use crate::random::RangeSource;
use vstd::prelude::*;

verus! {

/// The weights of what a velocity is composed of.
#[derive(Copy, Clone, Debug)]
pub struct Weights<F> {
    /// The weight of the previous velocity.
    pub inertia: F,
    /// The weight of the pull to the best position of the particle.
    pub cognitive: F,
    /// The weight of the pull to the best position of the swarm.
    pub social: F,
}

/// The range of the search space.
pub open spec fn extent<P: Position<F>, F: ArgminFloat>(low: P::V, high: P::V) -> P::V {
    P::difference(high, low)
}

/// The range of the search space, backwards.
pub open spec fn extent_backwards<P: Position<F>, F: ArgminFloat>(low: P::V, high: P::V) -> P::V {
    P::scaled(extent::<P, F>(low, high), float::minus_one())
}

/// `a`, held between two bounds.
pub open spec fn held<P: Position<F>, F: ArgminFloat>(a: P::V, low: P::V, high: P::V) -> P::V {
    P::lowest(P::highest(a, low), high)
}

/// The velocity that is composed of momentum and of the pulls to the best position of the particle
/// and to the best position of the swarm.
pub open spec fn composed_velocity<P: Position<F>, F: ArgminFloat>(
    velocity: P::V,
    weights: Weights<F>,
    pull_to_optimum: P::V,
    pull_to_global_optimum: P::V,
) -> P::V {
    P::sum(
        P::sum(
            P::scaled(velocity, weights.inertia),
            P::scaled(pull_to_optimum, weights.cognitive),
        ),
        P::scaled(pull_to_global_optimum, weights.social),
    )
}

/// The least and the greatest velocity that a clamp factor allows.
pub open spec fn velocity_limits<P: Position<F>, F: ArgminFloat>(
    factor: F,
    low: P::V,
    high: P::V,
) -> (P::V, P::V) {
    let v_max = P::scaled(extent::<P, F>(low, high), factor);
    (P::scaled(v_max, float::minus_one()), v_max)
}

/// Whether a velocity is between the limits that a clamp factor sets.
pub open spec fn is_limited<P: Position<F>, F: ArgminFloat>(
    velocity: P::V,
    clamp_factor: Option<F>,
    low: P::V,
    high: P::V,
) -> bool {
    clamp_factor matches Some(factor) ==> {
        let (v_min, v_max) = velocity_limits::<P, F>(factor, low, high);
        P::is_inside(v_min, v_min, v_max) ==> P::is_inside(v_min, velocity, v_max)
    }
}

/// A velocity, held between the limits that a clamp factor sets.
pub open spec fn limited_velocity<P: Position<F>, F: ArgminFloat>(
    velocity: P::V,
    clamp_factor: Option<F>,
    low: P::V,
    high: P::V,
) -> P::V {
    match clamp_factor {
        None => velocity,
        Some(factor) => {
            let (v_min, v_max) = velocity_limits::<P, F>(factor, low, high);
            held::<P, F>(velocity, v_min, v_max)
        },
    }
}

/// Whether a velocity is so close to zero that it is drawn anew.
pub open spec fn is_stagnant<P: Position<F>, F: ArgminFloat>(
    velocity: P::V,
    threshold: Option<F>,
) -> bool {
    threshold matches Some(t) && P::norm(velocity).spec_less(t)
}

/// Whether `r` may become of a velocity: a velocity close to zero is drawn anew.
pub open spec fn is_refreshed<P: Position<F>, F: ArgminFloat>(
    velocity: P::V,
    threshold: Option<F>,
    low: P::V,
    high: P::V,
    r: P::V,
) -> bool {
    if is_stagnant::<P, F>(velocity, threshold) {
        P::is_drawn(extent_backwards::<P, F>(low, high), extent::<P, F>(low, high), r)
    } else {
        r == velocity
    }
}

/// What becomes of a velocity by a stream of words, and what is left of the stream: a velocity close
/// to zero is drawn anew.
pub open spec fn refreshed_by<P: Position<F>, F: ArgminFloat, R: RangeSource<F>>(
    velocity: P::V,
    threshold: Option<F>,
    low: P::V,
    high: P::V,
    words: Map<nat, u64>,
) -> (P::V, Map<nat, u64>) {
    if is_stagnant::<P, F>(velocity, threshold) {
        P::drawn_by(
            random::ranging::<F, R>(),
            extent_backwards::<P, F>(low, high),
            extent::<P, F>(low, high),
            words,
        )
    } else {
        (velocity, words)
    }
}

/// Where `p` moves by a stream of words, and what is left of the stream: the pull to the best
/// position of the particle is drawn first, then the pull to the best position of the swarm, and
/// then a new velocity, if need be. Every velocity is held between the limits.
pub open spec fn moved_by<P: Position<F>, F: ArgminFloat, R: RangeSource<F>>(
    swarm: ParticleSwarm<P, F, R>,
    weights: Weights<F>,
    best: P::V,
    p: ParticleView<P::V, F>,
    words: Map<nat, u64>,
) -> (ParticleView<P::V, F>, Map<nat, u64>) {
    let (low, high) = (swarm.bounds.0@, swarm.bounds.1@);
    let (pull_to_optimum, after_first) = P::drawn_by(
        random::ranging::<F, R>(),
        P::origin(best),
        P::difference(p.best_position, p.position),
        words,
    );
    let (pull_to_global_optimum, after_second) = P::drawn_by(
        random::ranging::<F, R>(),
        P::origin(best),
        P::difference(best, p.position),
        after_first,
    );
    let composed = composed_velocity::<P, F>(
        p.velocity,
        weights,
        pull_to_optimum,
        pull_to_global_optimum,
    );
    let (refreshed, rest) = refreshed_by::<P, F, R>(
        limited_velocity::<P, F>(composed, swarm.velocity_clamp_factor, low, high),
        swarm.velocity_mutation_threshold,
        low,
        high,
        after_second,
    );
    let velocity = limited_velocity::<P, F>(refreshed, swarm.velocity_clamp_factor, low, high);
    let position = held::<P, F>(P::sum(p.position, velocity), low, high);
    (ParticleView { position, velocity, ..p }, rest)
}

/// Whether `q` is where `p` may move, given what the two pulls are and what becomes of the velocity
/// that they give if it is close to zero. Every velocity is held between the limits.
pub open spec fn is_pulled<P: Position<F>, F: ArgminFloat, R>(
    swarm: ParticleSwarm<P, F, R>,
    weights: Weights<F>,
    best: P::V,
    p: ParticleView<P::V, F>,
    q: ParticleView<P::V, F>,
    pull_to_optimum: P::V,
    pull_to_global_optimum: P::V,
    refreshed: P::V,
) -> bool {
    let (low, high) = (swarm.bounds.0@, swarm.bounds.1@);
    &&& P::is_drawn(P::origin(best), P::difference(p.best_position, p.position), pull_to_optimum)
    &&& P::is_drawn(P::origin(best), P::difference(best, p.position), pull_to_global_optimum)
    &&& is_refreshed::<P, F>(
        limited_velocity::<P, F>(
            composed_velocity::<P, F>(
                p.velocity,
                weights,
                pull_to_optimum,
                pull_to_global_optimum,
            ),
            swarm.velocity_clamp_factor,
            low,
            high,
        ),
        swarm.velocity_mutation_threshold,
        low,
        high,
        refreshed,
    )
    &&& q.velocity == limited_velocity::<P, F>(refreshed, swarm.velocity_clamp_factor, low, high)
    &&& q == (ParticleView {
        position: held::<P, F>(P::sum(p.position, q.velocity), low, high),
        velocity: q.velocity,
        ..p
    })
}

/// Whether `q` is where `p` may move.
pub open spec fn is_moved<P: Position<F>, F: ArgminFloat, R>(
    swarm: ParticleSwarm<P, F, R>,
    weights: Weights<F>,
    best: P::V,
    p: ParticleView<P::V, F>,
    q: ParticleView<P::V, F>,
) -> bool {
    exists|pull_to_optimum: P::V, pull_to_global_optimum: P::V, refreshed: P::V| #[trigger]
        is_pulled(swarm, weights, best, p, q, pull_to_optimum, pull_to_global_optimum, refreshed)
}

/// Whether there is a velocity so close to zero that it is drawn anew.
pub open spec fn may_stagnate<P: Position<F>, F: ArgminFloat, R>(
    swarm: ParticleSwarm<P, F, R>,
) -> bool {
    exists|velocity: P::V|
        P::dimension(velocity) == P::dimension(swarm.bounds.0@) && #[trigger] is_stagnant::<P, F>(
            velocity,
            swarm.velocity_mutation_threshold,
        )
}

/// Whether the bounds allow particles to move: they have the same number of coordinates, and if
/// velocities may be drawn anew, they can be.
pub open spec fn is_space<P: Position<F>, F: ArgminFloat, R>(
    swarm: ParticleSwarm<P, F, R>,
) -> bool {
    let (low, high) = (swarm.bounds.0@, swarm.bounds.1@);
    &&& P::dimension(low) > 0
    &&& P::dimension(low) == P::dimension(high)
    &&& may_stagnate(swarm) ==> P::can_draw(
        extent_backwards::<P, F>(low, high),
        extent::<P, F>(low, high),
    )
}

/// Whether a particle can be pulled to its best position and to the best position of the swarm.
pub open spec fn is_movable<P: Position<F>, F: ArgminFloat, R>(
    swarm: ParticleSwarm<P, F, R>,
    best: P::V,
    p: ParticleView<P::V, F>,
) -> bool {
    let n = P::dimension(swarm.bounds.0@);
    &&& P::dimension(best) == n
    &&& P::dimension(p.position) == n
    &&& P::dimension(p.velocity) == n
    &&& P::dimension(p.best_position) == n
    &&& P::can_draw(P::origin(best), P::difference(p.best_position, p.position))
    &&& P::can_draw(P::origin(best), P::difference(best, p.position))
}

/// Whether two solvers differ in their generators at most.
pub open spec fn same_settings<P, F: ArgminFloat, R>(
    a: ParticleSwarm<P, F, R>,
    b: ParticleSwarm<P, F, R>,
) -> bool {
    b == (ParticleSwarm { rng_generator: b.rng_generator, ..a })
}

/// `a`, held between two bounds.
pub fn hold<P: Position<F>, F: ArgminFloat>(a: &P, low: &P, high: &P) -> (r: P)
    requires
        P::dimension(a@) > 0,
        P::dimension(a@) == P::dimension(low@),
        P::dimension(a@) == P::dimension(high@),
    ensures
        r@ == held::<P, F>(a@, low@, high@),
        P::dimension(r@) == P::dimension(a@),
        P::is_inside(low@, low@, high@) ==> P::is_inside(low@, r@, high@),
{
    proof {
        P::dimension_laws(a@, low@, float::one());
        P::dimension_laws(P::highest(a@, low@), high@, float::one());
        if P::is_inside(low@, low@, high@) {
            P::clamp_laws(a@, low@, high@);
        }
    }
    let raised = P::upper(a, low);
    P::lower(&raised, high)
}

/// The velocity that is composed of momentum and of the pulls to the best position of the particle
/// and to the best position of the swarm.
pub fn compose_velocity<P: Position<F>, F: ArgminFloat>(
    velocity: &P,
    weights: Weights<F>,
    pull_to_optimum: &P,
    pull_to_global_optimum: &P,
) -> (r: P)
    requires
        P::dimension(velocity@) > 0,
        P::dimension(velocity@) == P::dimension(pull_to_optimum@),
        P::dimension(velocity@) == P::dimension(pull_to_global_optimum@),
    ensures
        r@ == composed_velocity::<P, F>(
            velocity@,
            weights,
            pull_to_optimum@,
            pull_to_global_optimum@,
        ),
        P::dimension(r@) == P::dimension(velocity@),
{
    let momentum = velocity.times(weights.inertia);
    let to_optimum = pull_to_optimum.times(weights.cognitive);
    let to_global_optimum = pull_to_global_optimum.times(weights.social);
    proof {
        P::dimension_laws(velocity@, velocity@, weights.inertia);
        P::dimension_laws(pull_to_optimum@, pull_to_optimum@, weights.cognitive);
        P::dimension_laws(pull_to_global_optimum@, pull_to_global_optimum@, weights.social);
        P::dimension_laws(momentum@, to_optimum@, weights.social);
        lemma_composed_dimension::<P, F>(
            velocity@,
            weights,
            pull_to_optimum@,
            pull_to_global_optimum@,
        );
    }
    momentum.plus(&to_optimum).plus(&to_global_optimum)
}

impl<P: Position<F>, F: ArgminFloat, R: RangeSource<F>> ParticleSwarm<P, F, R> {
    /// The velocity, held between the limits that the clamp factor sets, if there is one.
    pub fn limit_velocity(&self, velocity: &P) -> (r: P)
        requires
            is_space(*self),
            P::dimension(velocity@) == P::dimension(self.bounds.0@),
        ensures
            r@ == limited_velocity::<P, F>(
                velocity@,
                self.velocity_clamp_factor,
                self.bounds.0@,
                self.bounds.1@,
            ),
            is_limited::<P, F>(
                r@,
                self.velocity_clamp_factor,
                self.bounds.0@,
                self.bounds.1@,
            ),
            P::dimension(r@) == P::dimension(velocity@),
    {
        match self.velocity_clamp_factor {
            None => velocity.duplicate(),
            Some(clamp_factor) => {
                let range = self.bounds.1.minus(&self.bounds.0);
                let v_max = range.times(clamp_factor);
                let v_min = v_max.times(F::decimal(0, 0).minus(F::decimal(1, 0)));
                proof {
                    P::dimension_laws(self.bounds.1@, self.bounds.0@, clamp_factor);
                    P::dimension_laws(range@, range@, clamp_factor);
                    P::dimension_laws(v_max@, v_max@, float::minus_one());
                }
                hold(velocity, &v_min, &v_max)
            },
        }
    }

    /// Apply velocity mutation for near-zero velocity
    ///
    /// Checks if the velocity magnitude (L2 norm) falls below a threshold and
    /// reinitializes the entire velocity vector if so. This prevents particle stagnation
    /// by ensuring particles maintain some minimum velocity.
    pub fn mutate_velocity(&mut self, velocity: &P) -> (r: P)
        requires
            is_space(*old(self)),
            P::dimension(velocity@) == P::dimension(old(self).bounds.0@),
        ensures
            same_settings(*old(self), *final(self)),
            is_refreshed::<P, F>(
                velocity@,
                old(self).velocity_mutation_threshold,
                old(self).bounds.0@,
                old(self).bounds.1@,
                r@,
            ),
            (r@, random::stream(final(self).rng_generator)) == refreshed_by::<P, F, R>(
                velocity@,
                old(self).velocity_mutation_threshold,
                old(self).bounds.0@,
                old(self).bounds.1@,
                random::stream(old(self).rng_generator),
            ),
            P::dimension(r@) == P::dimension(velocity@),
    {
        match self.velocity_mutation_threshold {
            None => velocity.duplicate(),
            Some(threshold) => {
                let delta = self.bounds.1.minus(&self.bounds.0);
                let delta_neg = delta.times(F::decimal(0, 0).minus(F::decimal(1, 0)));
                if velocity.l2_norm().less(threshold) {
                    assert(is_stagnant::<P, F>(velocity@, self.velocity_mutation_threshold));
                    let r = P::rand_from_range(&delta_neg, &delta, &mut self.rng_generator);
                    proof {
                        P::dimension_laws(self.bounds.1@, self.bounds.0@, float::minus_one());
                        P::dimension_laws(delta@, delta@, float::minus_one());
                        P::draw_laws(delta_neg@, delta@, r@);
                    }
                    r
                } else {
                    velocity.duplicate()
                }
            },
        }
    }

    /// Moves a particle: draws the pulls, composes the velocity, and limits the position to the
    /// search window.
    pub fn move_particle(&mut self, p: Particle<P, F>, best: &P, weights: Weights<F>) -> (q: Particle<
        P,
        F,
    >)
        requires
            is_space(*old(self)),
            is_movable(*old(self), best@, p@),
        ensures
            same_settings(*old(self), *final(self)),
            (q@, random::stream(final(self).rng_generator)) == moved_by(
                *old(self),
                weights,
                best@,
                p@,
                random::stream(old(self).rng_generator),
            ),
            is_moved(*old(self), weights, best@, p@, q@),
            P::dimension(q.position@) == P::dimension(old(self).bounds.0@),
            P::dimension(q.velocity@) == P::dimension(old(self).bounds.0@),
            P::is_inside(old(self).bounds.0@, old(self).bounds.0@, old(self).bounds.1@)
                ==> P::is_inside(old(self).bounds.0@, q.position@, old(self).bounds.1@),
            is_limited::<P, F>(
                q.velocity@,
                old(self).velocity_clamp_factor,
                old(self).bounds.0@,
                old(self).bounds.1@,
            ),
    {
        let ghost before = p@;
        let zero = best.zero_like();
        proof {
            P::dimension_laws(best@, best@, weights.inertia);
        }
        let to_optimum = p.best_position.minus(&p.position);
        let pull_to_optimum = P::rand_from_range(&zero, &to_optimum, &mut self.rng_generator);
        let to_global_optimum = best.minus(&p.position);
        let pull_to_global_optimum = P::rand_from_range(
            &zero,
            &to_global_optimum,
            &mut self.rng_generator,
        );
        proof {
            P::draw_laws(zero@, to_optimum@, pull_to_optimum@);
            P::draw_laws(zero@, to_global_optimum@, pull_to_global_optimum@);
        }
        let composed = compose_velocity(
            &p.velocity,
            weights,
            &pull_to_optimum,
            &pull_to_global_optimum,
        );
        let limited = self.limit_velocity(&composed);
        let refreshed = self.mutate_velocity(&limited);
        let velocity = self.limit_velocity(&refreshed);
        let new_position = p.position.plus(&velocity);
        proof {
            P::dimension_laws(p.position@, velocity@, weights.inertia);
        }
        let position = hold(&new_position, &self.bounds.0, &self.bounds.1);
        let q = Particle {
            position,
            velocity,
            cost: p.cost,
            best_position: p.best_position,
            best_cost: p.best_cost,
        };
        assert(is_pulled(
            *old(self),
            weights,
            best@,
            before,
            q@,
            pull_to_optimum@,
            pull_to_global_optimum@,
            refreshed@,
        ));
        q
    }
}

/// A particle that was inside a box, together with the best positions, can be moved.
pub proof fn law_inside_is_movable<P: Position<F>, F: ArgminFloat, R>(
    swarm: ParticleSwarm<P, F, R>,
    best: P::V,
    p: ParticleView<P::V, F>,
)
    requires
        P::is_box(swarm.bounds.0@, swarm.bounds.1@),
        P::is_inside(swarm.bounds.0@, best, swarm.bounds.1@),
        P::is_inside(swarm.bounds.0@, p.position, swarm.bounds.1@),
        P::is_inside(swarm.bounds.0@, p.best_position, swarm.bounds.1@),
        P::dimension(p.velocity) == P::dimension(swarm.bounds.0@),
    ensures
        is_movable(swarm, best, p),
{
    P::box_laws(swarm.bounds.0@, swarm.bounds.1@, best, p.position);
    P::box_laws(swarm.bounds.0@, swarm.bounds.1@, p.best_position, p.position);
    P::box_laws(swarm.bounds.0@, swarm.bounds.1@, p.position, p.position);
    P::dimension_laws(best, p.best_position, float::one());
}

/// Wherever a particle moves, its velocity keeps the number of coordinates and is between the limits.
pub proof fn law_moved_velocity_is_limited<P: Position<F>, F: ArgminFloat, R>(
    swarm: ParticleSwarm<P, F, R>,
    weights: Weights<F>,
    best: P::V,
    p: ParticleView<P::V, F>,
    q: ParticleView<P::V, F>,
)
    requires
        is_space(swarm),
        is_movable(swarm, best, p),
        is_moved(swarm, weights, best, p, q),
    ensures
        P::dimension(q.velocity) == P::dimension(swarm.bounds.0@),
        is_limited::<P, F>(
            q.velocity,
            swarm.velocity_clamp_factor,
            swarm.bounds.0@,
            swarm.bounds.1@,
        ),
{
    let (low, high) = (swarm.bounds.0@, swarm.bounds.1@);
    let (a, b, refreshed) = choose|a: P::V, b: P::V, c: P::V| #[trigger]
        is_pulled(swarm, weights, best, p, q, a, b, c);
    P::dimension_laws(best, best, weights.inertia);
    P::draw_laws(P::origin(best), P::difference(p.best_position, p.position), a);
    P::draw_laws(P::origin(best), P::difference(best, p.position), b);
    lemma_composed_dimension::<P, F>(p.velocity, weights, a, b);
    let composed = composed_velocity::<P, F>(p.velocity, weights, a, b);
    lemma_limited_dimension::<P, F>(composed, swarm.velocity_clamp_factor, low, high);
    let limited = limited_velocity::<P, F>(composed, swarm.velocity_clamp_factor, low, high);
    let range = extent::<P, F>(low, high);
    P::dimension_laws(high, low, float::minus_one());
    if is_stagnant::<P, F>(limited, swarm.velocity_mutation_threshold) {
        P::dimension_laws(range, range, float::minus_one());
        P::draw_laws(extent_backwards::<P, F>(low, high), range, refreshed);
    }
    lemma_limited_dimension::<P, F>(refreshed, swarm.velocity_clamp_factor, low, high);
    if let Some(factor) = swarm.velocity_clamp_factor {
        let (v_min, v_max) = velocity_limits::<P, F>(factor, low, high);
        P::dimension_laws(range, range, factor);
        P::dimension_laws(v_max, v_max, float::minus_one());
        if P::is_inside(v_min, v_min, v_max) {
            P::clamp_laws(refreshed, v_min, v_max);
        }
    }
}

/// Wherever a particle moves, it stays inside the bounds if they are in order.
pub proof fn law_moved_stays_inside<P: Position<F>, F: ArgminFloat, R>(
    swarm: ParticleSwarm<P, F, R>,
    weights: Weights<F>,
    best: P::V,
    p: ParticleView<P::V, F>,
    q: ParticleView<P::V, F>,
)
    requires
        is_space(swarm),
        is_movable(swarm, best, p),
        is_moved(swarm, weights, best, p, q),
        P::is_inside(swarm.bounds.0@, swarm.bounds.0@, swarm.bounds.1@),
    ensures
        P::is_inside(swarm.bounds.0@, q.position, swarm.bounds.1@),
{
    let (low, high) = (swarm.bounds.0@, swarm.bounds.1@);
    law_moved_velocity_is_limited(swarm, weights, best, p, q);
    P::dimension_laws(p.position, q.velocity, weights.inertia);
    P::clamp_laws(P::sum(p.position, q.velocity), low, high);
}

proof fn lemma_composed_dimension<P: Position<F>, F: ArgminFloat>(
    velocity: P::V,
    weights: Weights<F>,
    a: P::V,
    b: P::V,
)
    requires
        P::dimension(velocity) == P::dimension(a),
        P::dimension(velocity) == P::dimension(b),
    ensures
        P::dimension(composed_velocity::<P, F>(velocity, weights, a, b)) == P::dimension(velocity),
{
    let momentum = P::scaled(velocity, weights.inertia);
    let to_optimum = P::scaled(a, weights.cognitive);
    let to_global_optimum = P::scaled(b, weights.social);
    P::dimension_laws(velocity, velocity, weights.inertia);
    P::dimension_laws(a, a, weights.cognitive);
    P::dimension_laws(b, b, weights.social);
    P::dimension_laws(momentum, to_optimum, weights.social);
    P::dimension_laws(P::sum(momentum, to_optimum), to_global_optimum, weights.social);
}

proof fn lemma_limited_dimension<P: Position<F>, F: ArgminFloat>(
    velocity: P::V,
    clamp_factor: Option<F>,
    low: P::V,
    high: P::V,
)
    requires
        P::dimension(velocity) == P::dimension(low),
        P::dimension(low) == P::dimension(high),
    ensures
        P::dimension(limited_velocity::<P, F>(velocity, clamp_factor, low, high)) == P::dimension(
            velocity,
        ),
{
    if let Some(factor) = clamp_factor {
        let range = extent::<P, F>(low, high);
        let v_max = P::scaled(range, factor);
        let v_min = P::scaled(v_max, float::minus_one());
        P::dimension_laws(high, low, factor);
        P::dimension_laws(range, range, factor);
        P::dimension_laws(v_max, v_max, float::minus_one());
        P::dimension_laws(velocity, v_min, factor);
        P::dimension_laws(P::highest(velocity, v_min), v_max, factor);
    }
}

} // verus!
