//! The first positions and velocities of the particles.

use crate::error::{Error, ErrorView};
use crate::float;
use crate::float::{ArgminFloat, Real};
use crate::ordering;
use crate::ordering::{sort_by, Precedence};
use crate::particleswarm::motion;
use crate::particleswarm::particle;
use crate::particleswarm::particle::{ByCost, Particle, ParticleView};
use crate::particleswarm::position::Position;
use crate::particleswarm::solver::ParticleSwarm;
use crate::particleswarm::strategy::InitializationStrategy;
use crate::problem;
use crate::problem::{bulk_cost, CostFunction};
use crate::random;
use crate::random::RangeSource;
use vstd::prelude::*;

verus! {

/// How far into the search space the `i`-th of `n` strata is sampled: between `i / n` and
/// `(i + 1) / n` of the way.
pub open spec fn stratum<F: ArgminFloat>(i: nat, n: usize, chance: F::Wide) -> F {
    let interval_size = float::one::<F>().spec_over(F::spec_from_u64(n as u64));
    F::spec_from_u64(i as u64).spec_times(interval_size).spec_plus(
        F::spec_narrow(chance).spec_times(interval_size),
    )
}

/// The point that lies `t` of the way from one bound to the other.
pub open spec fn interpolated<P: Position<F>, F: ArgminFloat>(low: P::V, high: P::V, t: F) -> P::V {
    P::sum(low, P::scaled(motion::extent::<P, F>(low, high), t))
}

/// Where particle `i` starts by a stream of words, and what is left of the stream: at a sample of
/// the `i`-th stratum, which takes one word, or anywhere in the search space.
pub open spec fn start_by<P: Position<F>, F: ArgminFloat, R: RangeSource<F>>(
    swarm: ParticleSwarm<P, F, R>,
    i: nat,
    words: Map<nat, u64>,
) -> (P::V, Map<nat, u64>) {
    let (low, high) = (swarm.bounds.0@, swarm.bounds.1@);
    match swarm.initialization_strategy {
        InitializationStrategy::LatinHypercube => (
            interpolated::<P, F>(
                low,
                high,
                stratum::<F>(i, swarm.num_particles, random::unit_at(words, 0)),
            ),
            random::ahead(words, 1),
        ),
        _ => P::drawn_by(random::ranging::<F, R>(), low, high, words),
    }
}

/// What is left of the words of the solver's generator after the first `k` particles have been
/// placed by them, one after the other.
pub open spec fn words_after_starts<P: Position<F>, F: ArgminFloat, R: RangeSource<F>>(
    swarm: ParticleSwarm<P, F, R>,
    k: nat,
) -> Map<nat, u64>
    decreases k,
{
    if k == 0 {
        random::stream(swarm.rng_generator)
    } else {
        start_by(swarm, (k - 1) as nat, words_after_starts(swarm, (k - 1) as nat)).1
    }
}

/// Whether particle `i` starts at `r`.
pub open spec fn is_start<P: Position<F>, F: ArgminFloat, R: RangeSource<F>>(
    swarm: ParticleSwarm<P, F, R>,
    i: nat,
    r: P::V,
) -> bool {
    &&& r == start_by(swarm, i, words_after_starts(swarm, i)).0
    &&& !(swarm.initialization_strategy is LatinHypercube) ==> P::is_drawn(
        swarm.bounds.0@,
        swarm.bounds.1@,
        r,
    )
}

/// Whether the particles start at `positions`.
pub open spec fn are_starts<P: Position<F>, F: ArgminFloat, R: RangeSource<F>>(
    swarm: ParticleSwarm<P, F, R>,
    positions: Seq<P::V>,
) -> bool {
    &&& positions.len() == swarm.num_particles
    &&& forall|i: int|
        0 <= i < positions.len() ==> is_start(swarm, i as nat, #[trigger] positions[i])
}

/// The velocity that a particle starts with by a stream of words, and what is left of the stream.
pub open spec fn velocity_by<P: Position<F>, F: ArgminFloat, R: RangeSource<F>>(
    swarm: ParticleSwarm<P, F, R>,
    words: Map<nat, u64>,
) -> (P::V, Map<nat, u64>) {
    P::drawn_by(
        random::ranging::<F, R>(),
        motion::extent_backwards::<P, F>(swarm.bounds.0@, swarm.bounds.1@),
        motion::extent::<P, F>(swarm.bounds.0@, swarm.bounds.1@),
        words,
    )
}

/// What is left of a stream of words after the first `k` particles have got their velocities by it,
/// one after the other.
pub open spec fn words_after_velocities<P: Position<F>, F: ArgminFloat, R: RangeSource<F>>(
    swarm: ParticleSwarm<P, F, R>,
    words: Map<nat, u64>,
    k: nat,
) -> Map<nat, u64>
    decreases k,
{
    if k == 0 {
        words
    } else {
        velocity_by(swarm, words_after_velocities(swarm, words, (k - 1) as nat)).1
    }
}

/// The words by which the particles get their velocities. Where the positions are opposed, the
/// velocities are drawn a second time.
pub open spec fn velocity_words<P: Position<F>, F: ArgminFloat, R: RangeSource<F>>(
    swarm: ParticleSwarm<P, F, R>,
) -> Map<nat, u64> {
    let n = swarm.num_particles as nat;
    if swarm.initialization_strategy is OppositionBased {
        words_after_velocities(swarm, words_after_starts(swarm, n), n)
    } else {
        words_after_starts(swarm, n)
    }
}

/// Whether a particle may start with `velocity`.
pub open spec fn is_start_velocity<P: Position<F>, F: ArgminFloat, R>(
    swarm: ParticleSwarm<P, F, R>,
    velocity: P::V,
) -> bool {
    P::is_drawn(
        motion::extent_backwards::<P, F>(swarm.bounds.0@, swarm.bounds.1@),
        motion::extent::<P, F>(swarm.bounds.0@, swarm.bounds.1@),
        velocity,
    )
}

/// Whether the particles start with `velocities` by a stream of words.
pub open spec fn are_start_velocities<P: Position<F>, F: ArgminFloat, R: RangeSource<F>>(
    swarm: ParticleSwarm<P, F, R>,
    velocities: Seq<P::V>,
    words: Map<nat, u64>,
) -> bool {
    &&& velocities.len() == swarm.num_particles
    &&& forall|i: int|
        0 <= i < velocities.len() ==> {
            &&& #[trigger] velocities[i] == velocity_by(
                swarm,
                words_after_velocities(swarm, words, i as nat),
            ).0
            &&& is_start_velocity(swarm, velocities[i])
        }
}

/// The position on the other side of the search space.
pub open spec fn opposite<P: Position<F>, F: ArgminFloat>(
    low: P::V,
    high: P::V,
    position: P::V,
) -> P::V {
    P::difference(P::sum(low, high), position)
}

/// The positions on the other side of the search space.
pub open spec fn opposites<P: Position<F>, F: ArgminFloat>(
    low: P::V,
    high: P::V,
    positions: Seq<P::V>,
) -> Seq<P::V> {
    positions.map_values(|p: P::V| opposite::<P, F>(low, high, p))
}

/// A position and its cost.
pub struct Priced<P, F> {
    /// The position.
    pub position: P,
    /// Its cost.
    pub cost: F,
}

/// The abstract value of a position and its cost.
#[verifier::ext_equal]
pub struct PricedView<V, F> {
    /// The position.
    pub position: V,
    /// Its cost.
    pub cost: F,
}

impl<P: View, F> View for Priced<P, F> {
    type V = PricedView<P::V, F>;

    open spec fn view(&self) -> PricedView<P::V, F> {
        PricedView { position: self.position@, cost: self.cost }
    }
}

/// Positions together with their costs.
pub open spec fn priced<V, F>(positions: Seq<V>, costs: Seq<F>) -> Seq<PricedView<V, F>> {
    Seq::new(positions.len(), |i: int| PricedView { position: positions[i], cost: costs[i] })
}

/// Which of two positions costs less.
pub open spec fn cheaper<V, F: Real>() -> spec_fn(PricedView<V, F>, PricedView<V, F>) -> bool {
    |a: PricedView<V, F>, b: PricedView<V, F>| a.cost.spec_less(b.cost)
}

/// The `n` cheapest of the positions.
pub open spec fn cheapest<V, F: Real>(candidates: Seq<PricedView<V, F>>, n: nat) -> Seq<V> {
    ordering::sorted(cheaper(), candidates).take(n as int).map_values(
        |c: PricedView<V, F>| c.position,
    )
}

/// Whether the particles may be put at `positions`: either where they start, or at the cheapest of
/// where they start and of the opposite positions.
pub open spec fn are_first_positions<
    O: CostFunction<P, F>,
    P: Position<F>,
    F: ArgminFloat,
    R: RangeSource<F>,
>(problem: O, swarm: ParticleSwarm<P, F, R>, positions: Seq<P::V>) -> bool {
    if swarm.initialization_strategy is OppositionBased {
        exists|starts: Seq<P::V>, costs: Seq<F>, opposite_costs: Seq<F>| #[trigger]
            is_opposition::<O, P, F, R>(problem, swarm, starts, costs, opposite_costs, positions)
    } else {
        are_starts(swarm, positions)
    }
}

/// Whether `positions` are the cheapest of `starts` and of the opposite positions.
pub open spec fn is_choice<O: CostFunction<P, F>, P: Position<F>, F: ArgminFloat, R>(
    problem: O,
    swarm: ParticleSwarm<P, F, R>,
    starts: Seq<P::V>,
    costs: Seq<F>,
    opposite_costs: Seq<F>,
    positions: Seq<P::V>,
) -> bool {
    let others = opposites::<P, F>(swarm.bounds.0@, swarm.bounds.1@, starts);
    &&& problem::are_costs::<O, P, F>(problem, starts, costs)
    &&& problem::are_costs::<O, P, F>(problem, others, opposite_costs)
    &&& positions == cheapest(
        priced(starts, costs) + priced(others, opposite_costs),
        swarm.num_particles as nat,
    )
}

/// Whether `positions` are the cheapest of `starts`, where the particles start, and of the opposite
/// positions.
pub open spec fn is_opposition<
    O: CostFunction<P, F>,
    P: Position<F>,
    F: ArgminFloat,
    R: RangeSource<F>,
>(
    problem: O,
    swarm: ParticleSwarm<P, F, R>,
    starts: Seq<P::V>,
    costs: Seq<F>,
    opposite_costs: Seq<F>,
    positions: Seq<P::V>,
) -> bool {
    &&& are_starts(swarm, starts)
    &&& is_choice::<O, P, F, R>(problem, swarm, starts, costs, opposite_costs, positions)
}

/// New particles, by their cost.
pub open spec fn assembled<V, F: Real>(
    positions: Seq<V>,
    velocities: Seq<V>,
    costs: Seq<F>,
) -> Seq<ParticleView<V, F>> {
    ordering::sorted(
        particle::by_cost(),
        Seq::new(
            positions.len(),
            |i: int| particle::new_particle(positions[i], costs[i], velocities[i]),
        ),
    )
}

/// Whether `particles` may be made of `positions`, `velocities` and `costs`.
pub open spec fn is_assembly<O: CostFunction<P, F>, P: Position<F>, F: ArgminFloat, R: RangeSource<F>>(
    problem: O,
    swarm: ParticleSwarm<P, F, R>,
    positions: Seq<P::V>,
    velocities: Seq<P::V>,
    costs: Seq<F>,
    particles: Seq<ParticleView<P::V, F>>,
) -> bool {
    &&& are_first_positions::<O, P, F, R>(problem, swarm, positions)
    &&& are_start_velocities(swarm, velocities, velocity_words(swarm))
    &&& problem::are_costs::<O, P, F>(problem, positions, costs)
    &&& particles == assembled(positions, velocities, costs)
}

/// Whether `particles` may be the first particles of the swarm.
pub open spec fn is_first_swarm<O: CostFunction<P, F>, P: Position<F>, F: ArgminFloat, R: RangeSource<F>>(
    problem: O,
    swarm: ParticleSwarm<P, F, R>,
    particles: Seq<ParticleView<P::V, F>>,
) -> bool {
    exists|positions: Seq<P::V>, velocities: Seq<P::V>, costs: Seq<F>| #[trigger]
        is_assembly::<O, P, F, R>(problem, swarm, positions, velocities, costs, particles)
}

/// The words that are left after the first particles have been made.
pub open spec fn words_after_first_swarm<P: Position<F>, F: ArgminFloat, R: RangeSource<F>>(
    swarm: ParticleSwarm<P, F, R>,
) -> Map<nat, u64> {
    words_after_velocities(swarm, velocity_words(swarm), swarm.num_particles as nat)
}

/// The words that are left after the particles have been placed and have got their velocities once.
pub open spec fn words_after_placing<P: Position<F>, F: ArgminFloat, R: RangeSource<F>>(
    swarm: ParticleSwarm<P, F, R>,
) -> Map<nat, u64> {
    let n = swarm.num_particles as nat;
    words_after_velocities(swarm, words_after_starts(swarm, n), n)
}

/// Whether the problem is asked for the costs of `positions` while the first particles are made:
/// where they start, the opposite positions, and where they are put.
pub open spec fn are_asked_for<
    O: CostFunction<P, F>,
    P: Position<F>,
    F: ArgminFloat,
    R: RangeSource<F>,
>(problem: O, swarm: ParticleSwarm<P, F, R>, positions: Seq<P::V>) -> bool {
    ||| are_first_positions::<O, P, F, R>(problem, swarm, positions)
    ||| swarm.initialization_strategy is OppositionBased && exists|starts: Seq<P::V>| #[trigger]
        are_starts(swarm, starts) && (positions == starts || positions == opposites::<P, F>(
            swarm.bounds.0@,
            swarm.bounds.1@,
            starts,
        ))
}

/// Whether the problem may answer with the error `e` to one of the positions that it is asked for
/// while the first particles are made.
pub open spec fn is_first_failure<
    O: CostFunction<P, F>,
    P: Position<F>,
    F: ArgminFloat,
    R: RangeSource<F>,
>(problem: O, swarm: ParticleSwarm<P, F, R>, e: ErrorView) -> bool {
    exists|positions: Seq<P::V>| #[trigger]
        are_asked_for::<O, P, F, R>(problem, swarm, positions) && problem::fails_on::<O, P, F>(
            problem,
            positions,
            e,
        )
}

/// Whether the first positions and velocities can be drawn.
pub open spec fn can_start<P: Position<F>, F: ArgminFloat, R>(
    swarm: ParticleSwarm<P, F, R>,
) -> bool {
    let (low, high) = (swarm.bounds.0@, swarm.bounds.1@);
    &&& P::dimension(low) > 0
    &&& P::dimension(low) == P::dimension(high)
    &&& !(swarm.initialization_strategy is LatinHypercube) ==> P::can_draw(low, high)
    &&& P::can_draw(
        motion::extent_backwards::<P, F>(low, high),
        motion::extent::<P, F>(low, high),
    )
}

/// Orders positions by their cost.
struct Cheaper;

impl<P: Position<F>, F: ArgminFloat> Precedence<Priced<P, F>> for Cheaper {
    open spec fn order(&self) -> spec_fn(Priced<P, F>, Priced<P, F>) -> bool {
        |a: Priced<P, F>, b: Priced<P, F>| cheaper()(a@, b@)
    }

    open spec fn covers(&self, a: Priced<P, F>) -> bool {
        true
    }

    fn precedes(&self, a: &Priced<P, F>, b: &Priced<P, F>) -> (r: bool) {
        a.cost.less(b.cost)
    }
}

/// The particles by their cost.
pub fn sort_particles<P: Position<F>, F: ArgminFloat>(particles: Vec<Particle<P, F>>) -> (r: Vec<
    Particle<P, F>,
>)
    ensures
        particle::views(r@) == ordering::sorted(
            particle::by_cost(),
            particle::views(particles@),
        ),
        r@.len() == particles@.len(),
{
    let rule = ByCost;
    proof {
        ordering::lemma_sorted_views(
            <ByCost as Precedence<Particle<P, F>>>::order(&rule),
            particle::by_cost::<P::V, F>(),
            particles@,
        );
        ordering::law_sorted_is_permutation(
            <ByCost as Precedence<Particle<P, F>>>::order(&rule),
            particles@,
        );
    }
    sort_by(&rule, particles)
}

/// The `n` cheapest of two lists of positions.
pub fn select_cheapest<P: Position<F>, F: ArgminFloat>(
    positions: Vec<P>,
    costs: Vec<F>,
    others: Vec<P>,
    other_costs: Vec<F>,
    n: usize,
) -> (r: Vec<P>)
    requires
        positions@.len() == costs@.len(),
        others@.len() == other_costs@.len(),
        n <= positions@.len() + others@.len(),
    ensures
        problem::views(r@) == cheapest(
            priced(problem::views(positions@), costs@) + priced(
                problem::views(others@),
                other_costs@,
            ),
            n as nat,
        ),
        r@.len() == n,
{
    let ghost first = priced(problem::views(positions@), costs@);
    let ghost second = priced(problem::views(others@), other_costs@);
    let mut combined: Vec<Priced<P, F>> = Vec::new();
    let mut k: usize = 0;
    for position in it: positions
        invariant
            k == it.index(),
            it.seq().len() == costs@.len(),
            first == priced(problem::views(it.seq()), costs@),
            problem::views(combined@) =~= first.take(k as int),
    {
        assert(k < costs.len());
        let candidate = Priced { position, cost: costs[k] };
        proof {
            assert(problem::views(combined@.push(candidate)) =~= problem::views(combined@).push(
                candidate@,
            ));
        }
        combined.push(candidate);
        k = k + 1;
    }
    let mut k: usize = 0;
    for position in it: others
        invariant
            k == it.index(),
            it.seq().len() == other_costs@.len(),
            second == priced(problem::views(it.seq()), other_costs@),
            problem::views(combined@) =~= first + second.take(k as int),
    {
        assert(k < other_costs.len());
        let candidate = Priced { position, cost: other_costs[k] };
        proof {
            assert(first + second.take(k + 1) =~= (first + second.take(k as int)).push(
                candidate@,
            ));
            assert(problem::views(combined@.push(candidate)) =~= problem::views(combined@).push(
                candidate@,
            ));
        }
        combined.push(candidate);
        k = k + 1;
    }
    let rule = Cheaper;
    let ghost all = combined@;
    proof {
        assert(problem::views(all) =~= first + second);
        ordering::lemma_sorted_views(
            <Cheaper as Precedence<Priced<P, F>>>::order(&rule),
            cheaper::<P::V, F>(),
            all,
        );
        ordering::law_sorted_is_permutation(
            <Cheaper as Precedence<Priced<P, F>>>::order(&rule),
            all,
        );
    }
    let ranked = sort_by(&rule, combined);
    let ghost order = ranked@;
    let mut ranked = ranked;
    ranked.truncate(n);
    let mut r: Vec<P> = Vec::new();
    for candidate in it: ranked
        invariant
            it.seq() == order.take(n as int),
            n <= order.len(),
            problem::views(order) == ordering::sorted(cheaper(), first + second),
            r@.len() == it.index(),
            forall|i: int| 0 <= i < r@.len() ==> (#[trigger] r@[i])@ == order[i].position@,
    {
        r.push(candidate.position);
    }
    r
}

/// New particles, by their cost.
pub fn assemble<P: Position<F>, F: ArgminFloat>(
    positions: Vec<P>,
    velocities: Vec<P>,
    costs: Vec<F>,
) -> (r: Vec<Particle<P, F>>)
    requires
        positions@.len() == velocities@.len(),
        positions@.len() == costs@.len(),
    ensures
        particle::views(r@) == assembled(
            problem::views(positions@),
            problem::views(velocities@),
            costs@,
        ),
        r@.len() == positions@.len(),
{
    let ghost new = Seq::new(
        positions@.len(),
        |i: int| particle::new_particle(positions@[i]@, costs@[i], velocities@[i]@),
    );
    let mut particles: Vec<Particle<P, F>> = Vec::new();
    let mut k: usize = 0;
    let ghost n = positions@.len();
    for position in it: positions
        invariant
            k == it.index(),
            it.seq().len() == n,
            velocities@.len() == n,
            costs@.len() == n,
            new.len() == n,
            forall|i: int|
                0 <= i < n ==> #[trigger] new[i] == particle::new_particle(
                    it.seq()[i]@,
                    costs@[i],
                    velocities@[i]@,
                ),
            particle::views(particles@) =~= new.take(k as int),
    {
        assert(k < costs.len());
        let p = Particle::new(position, costs[k], velocities[k].duplicate());
        proof {
            assert(particle::views(particles@.push(p)) =~= particle::views(particles@).push(p@));
        }
        particles.push(p);
        k = k + 1;
    }
    proof {
        assert(particle::views(particles@) =~= new);
        assert(new =~= Seq::new(
            problem::views(positions@).len(),
            |i: int|
                particle::new_particle(
                    problem::views(positions@)[i],
                    costs@[i],
                    problem::views(velocities@)[i],
                ),
        ));
    }
    sort_particles(particles)
}

impl<P: Position<F>, F: ArgminFloat, R: RangeSource<F>> ParticleSwarm<P, F, R> {
    /// Velocities for all particles
    pub fn initialize_velocities(&mut self) -> (r: Vec<P>)
        requires
            can_start(*old(self)),
        ensures
            motion::same_settings(*old(self), *final(self)),
            are_start_velocities(
                *old(self),
                problem::views(r@),
                random::stream(old(self).rng_generator),
            ),
            random::stream(final(self).rng_generator) == words_after_velocities(
                *old(self),
                random::stream(old(self).rng_generator),
                old(self).num_particles as nat,
            ),
    {
        let ghost words = random::stream(self.rng_generator);
        let delta = self.bounds.1.minus(&self.bounds.0);
        let delta_neg = delta.times(F::decimal(0, 0).minus(F::decimal(1, 0)));
        let mut velocities: Vec<P> = Vec::new();
        let mut k: usize = 0;
        while k < self.num_particles
            invariant
                can_start(*old(self)),
                motion::same_settings(*old(self), *self),
                delta@ == motion::extent::<P, F>(old(self).bounds.0@, old(self).bounds.1@),
                delta_neg@ == motion::extent_backwards::<P, F>(
                    old(self).bounds.0@,
                    old(self).bounds.1@,
                ),
                k <= self.num_particles,
                velocities@.len() == k,
                words == random::stream(old(self).rng_generator),
                random::stream(self.rng_generator) == words_after_velocities(
                    *old(self),
                    words,
                    k as nat,
                ),
                forall|i: int|
                    0 <= i < k ==> (#[trigger] velocities@[i])@ == velocity_by(
                        *old(self),
                        words_after_velocities(*old(self), words, i as nat),
                    ).0,
                forall|i: int|
                    0 <= i < k ==> is_start_velocity(*old(self), (#[trigger] velocities@[i])@),
            decreases self.num_particles - k,
        {
            velocities.push(P::rand_from_range(&delta_neg, &delta, &mut self.rng_generator));
            k = k + 1;
        }
        velocities
    }

    /// The point of the `i`-th stratum of the search space for which `chance` was drawn.
    pub fn sample_stratum(&self, i: usize, chance: F::Wide) -> (r: P)
        requires
            P::dimension(self.bounds.0@) > 0,
            P::dimension(self.bounds.0@) == P::dimension(self.bounds.1@),
        ensures
            r@ == interpolated::<P, F>(
                self.bounds.0@,
                self.bounds.1@,
                stratum::<F>(i as nat, self.num_particles, chance),
            ),
    {
        let delta = self.bounds.1.minus(&self.bounds.0);
        let interval_size = F::decimal(1, 0).over(F::from_u64(self.num_particles as u64));
        let interval_start = F::from_u64(i as u64).times(interval_size);
        let random_offset = F::narrow(chance).times(interval_size);
        let t = interval_start.plus(random_offset);
        let scaled_delta = delta.times(t);
        proof {
            P::dimension_laws(self.bounds.1@, self.bounds.0@, t);
            P::dimension_laws(delta@, delta@, t);
        }
        self.bounds.0.plus(&scaled_delta)
    }

    /// Initializes positions and velocities for all particles
    pub fn initialize_positions_and_velocities(&mut self) -> (r: (Vec<P>, Vec<P>))
        requires
            can_start(*old(self)),
        ensures
            motion::same_settings(*old(self), *final(self)),
            are_starts(*old(self), problem::views(r.0@)),
            are_start_velocities(
                *old(self),
                problem::views(r.1@),
                words_after_starts(*old(self), old(self).num_particles as nat),
            ),
            random::stream(final(self).rng_generator) == words_after_velocities(
                *old(self),
                words_after_starts(*old(self), old(self).num_particles as nat),
                old(self).num_particles as nat,
            ),
    {
        let mut positions: Vec<P> = Vec::new();
        let mut k: usize = 0;
        while k < self.num_particles
            invariant
                can_start(*old(self)),
                motion::same_settings(*old(self), *self),
                k <= self.num_particles,
                positions@.len() == k,
                random::stream(self.rng_generator) == words_after_starts(*old(self), k as nat),
                forall|i: int|
                    0 <= i < k ==> is_start(*old(self), i as nat, (#[trigger] positions@[i])@),
            decreases self.num_particles - k,
        {
            let position = match self.initialization_strategy {
                InitializationStrategy::LatinHypercube => {
                    let chance: F::Wide = random::unit_draw(&mut self.rng_generator);
                    self.sample_stratum(k, chance)
                },
                _ => P::rand_from_range(
                    &self.bounds.0,
                    &self.bounds.1,
                    &mut self.rng_generator,
                ),
            };
            positions.push(position);
            k = k + 1;
        }
        let ghost now = *self;
        let velocities = self.initialize_velocities();
        proof {
            lemma_velocities_ignore_generator(
                now,
                *old(self),
                problem::views(velocities@),
                random::stream(now.rng_generator),
            );
        }
        (positions, velocities)
    }

    /// The positions on the other side of the search space.
    fn opposite_positions(&self, positions: &Vec<P>) -> (r: Vec<P>)
        requires
            P::dimension(self.bounds.0@) > 0,
            P::dimension(self.bounds.0@) == P::dimension(self.bounds.1@),
            forall|i: int|
                0 <= i < positions@.len() ==> P::dimension((#[trigger] positions@[i])@)
                    == P::dimension(self.bounds.0@),
        ensures
            problem::views(r@) == opposites::<P, F>(
                self.bounds.0@,
                self.bounds.1@,
                problem::views(positions@),
            ),
            r@.len() == positions@.len(),
    {
        let sum = self.bounds.0.plus(&self.bounds.1);
        proof {
            P::dimension_laws(self.bounds.0@, self.bounds.1@, float::one());
        }
        let mut r: Vec<P> = Vec::new();
        let mut k: usize = 0;
        while k < positions.len()
            invariant
                k <= positions@.len(),
                r@.len() == k,
                P::dimension(self.bounds.0@) > 0,
                P::dimension(sum@) == P::dimension(self.bounds.0@),
                sum@ == P::sum(self.bounds.0@, self.bounds.1@),
                forall|i: int|
                    0 <= i < positions@.len() ==> P::dimension((#[trigger] positions@[i])@)
                        == P::dimension(self.bounds.0@),
                forall|i: int|
                    0 <= i < k ==> (#[trigger] r@[i])@ == opposite::<P, F>(
                        self.bounds.0@,
                        self.bounds.1@,
                        positions@[i]@,
                    ),
            decreases positions@.len() - k,
        {
            r.push(sum.minus(&positions[k]));
            k = k + 1;
        }
        assert(problem::views(r@) =~= opposites::<P, F>(
            self.bounds.0@,
            self.bounds.1@,
            problem::views(positions@),
        ));
        r
    }

    /// The cheapest of some positions and of the opposite positions.
    fn oppose<O: CostFunction<P, F>>(&self, problem: &O, positions: Vec<P>) -> (r: Result<
        Vec<P>,
        Error,
    >)
        requires
            can_start(*self),
            positions@.len() == self.num_particles,
            forall|i: int|
                0 <= i < positions@.len() ==> P::dimension((#[trigger] positions@[i])@)
                    == P::dimension(self.bounds.0@),
        ensures
            match r {
                Ok(chosen) => {
                    &&& exists|costs: Seq<F>, opposite_costs: Seq<F>| #[trigger]
                        is_choice::<O, P, F, R>(
                            *problem,
                            *self,
                            problem::views(positions@),
                            costs,
                            opposite_costs,
                            problem::views(chosen@),
                        )
                    &&& chosen@.len() == self.num_particles
                },
                Err(e) => {
                    ||| problem::fails_on::<O, P, F>(*problem, problem::views(positions@), e@)
                    ||| problem::fails_on::<O, P, F>(
                        *problem,
                        opposites::<P, F>(
                            self.bounds.0@,
                            self.bounds.1@,
                            problem::views(positions@),
                        ),
                        e@,
                    )
                },
            },
    {
        let ghost starts = problem::views(positions@);
        let others = self.opposite_positions(&positions);
        let costs = match bulk_cost(problem, &positions) {
            Err(e) => {
                return Err(e);
            },
            Ok(costs) => costs,
        };
        let other_costs = match bulk_cost(problem, &others) {
            Err(e) => {
                return Err(e);
            },
            Ok(costs) => costs,
        };
        let ghost (c1, c2) = (costs@, other_costs@);
        let chosen = select_cheapest(positions, costs, others, other_costs, self.num_particles);
        assert(is_choice::<O, P, F, R>(
            *problem,
            *self,
            starts,
            c1,
            c2,
            problem::views(chosen@),
        ));
        Ok(chosen)
    }

    /// Initializes all particles randomly and sorts them by their cost function values
    pub fn initialize_particles<O: CostFunction<P, F>>(&mut self, problem: &O) -> (r: Result<
        Vec<Particle<P, F>>,
        Error,
    >)
        requires
            can_start(*old(self)),
        ensures
            motion::same_settings(*old(self), *final(self)),
            match r {
                Ok(particles) => is_first_swarm::<O, P, F, R>(
                    *problem,
                    *old(self),
                    particle::views(particles@),
                ) && particles@.len() == old(self).num_particles,
                Err(e) => is_first_failure::<O, P, F, R>(*problem, *old(self), e@),
            },
            random::stream(final(self).rng_generator) == match r {
                Ok(_) => words_after_first_swarm(*old(self)),
                Err(_) => words_after_placing(*old(self)),
            },
            problem::never_fails::<O, P, F>(*problem) ==> r is Ok,
    {
        let (starts, first_velocities) = self.initialize_positions_and_velocities();
        let opposed = match self.initialization_strategy {
            InitializationStrategy::OppositionBased => true,
            _ => false,
        };
        let positions = if opposed {
            let ghost same = *self;
            let ghost places = problem::views(starts@);
            proof {
                assert forall|i: int| 0 <= i < starts@.len() implies P::dimension(
                    (#[trigger] starts@[i])@,
                ) == P::dimension(self.bounds.0@) by {
                    assert(is_start(*old(self), i as nat, places[i]));
                    P::draw_laws(self.bounds.0@, self.bounds.1@, starts@[i]@);
                }
            }
            match self.oppose(problem, starts) {
                Err(e) => {
                    proof {
                        let others = opposites::<P, F>(
                            self.bounds.0@,
                            self.bounds.1@,
                            places,
                        );
                        assert(are_starts(*old(self), places));
                        assert(are_asked_for::<O, P, F, R>(*problem, *old(self), places));
                        assert(are_asked_for::<O, P, F, R>(*problem, *old(self), others));
                    }
                    return Err(e);
                },
                Ok(chosen) => {
                    proof {
                        let (costs, opposite_costs) = choose|
                            costs: Seq<F>,
                            opposite_costs: Seq<F>,
                        | #[trigger]
                            is_choice::<O, P, F, R>(
                                *problem,
                                same,
                                places,
                                costs,
                                opposite_costs,
                                problem::views(chosen@),
                            );
                        assert(is_opposition::<O, P, F, R>(
                            *problem,
                            *old(self),
                            places,
                            costs,
                            opposite_costs,
                            problem::views(chosen@),
                        ));
                    }
                    chosen
                },
            }
        } else {
            starts
        };
        let costs = match bulk_cost(problem, &positions) {
            Err(e) => {
                assert(are_asked_for::<O, P, F, R>(
                    *problem,
                    *old(self),
                    problem::views(positions@),
                ));
                return Err(e);
            },
            Ok(costs) => costs,
        };
        let velocities = if opposed {
            let ghost now = *self;
            let velocities = self.initialize_velocities();
            proof {
                lemma_velocities_ignore_generator(
                    now,
                    *old(self),
                    problem::views(velocities@),
                    random::stream(now.rng_generator),
                );
            }
            velocities
        } else {
            first_velocities
        };
        let ghost (a, b, c) = (
            problem::views(positions@),
            problem::views(velocities@),
            costs@,
        );
        let particles = assemble(positions, velocities, costs);
        assert(is_assembly::<O, P, F, R>(
            *problem,
            *old(self),
            a,
            b,
            c,
            particle::views(particles@),
        ));
        Ok(particles)
    }
}

/// Which velocities follow from a stream of words does not depend on the generator that gives it.
proof fn lemma_velocities_ignore_generator<P: Position<F>, F: ArgminFloat, R: RangeSource<F>>(
    a: ParticleSwarm<P, F, R>,
    b: ParticleSwarm<P, F, R>,
    velocities: Seq<P::V>,
    words: Map<nat, u64>,
)
    requires
        motion::same_settings(b, a),
        are_start_velocities(a, velocities, words),
    ensures
        are_start_velocities(b, velocities, words),
        words_after_velocities(a, words, velocities.len()) == words_after_velocities(
            b,
            words,
            velocities.len(),
        ),
{
    lemma_velocity_words_ignore_generator(a, b, words, velocities.len());
    assert forall|i: int| 0 <= i < velocities.len() implies #[trigger] velocities[i]
        == velocity_by(b, words_after_velocities(b, words, i as nat)).0 && is_start_velocity(
        b,
        velocities[i],
    ) by {
        lemma_velocity_words_ignore_generator(a, b, words, i as nat);
    }
}

proof fn lemma_velocity_words_ignore_generator<P: Position<F>, F: ArgminFloat, R: RangeSource<F>>(
    a: ParticleSwarm<P, F, R>,
    b: ParticleSwarm<P, F, R>,
    words: Map<nat, u64>,
    k: nat,
)
    requires
        a.bounds == b.bounds,
    ensures
        words_after_velocities(a, words, k) == words_after_velocities(b, words, k),
    decreases k,
{
    if k > 0 {
        lemma_velocity_words_ignore_generator(a, b, words, (k - 1) as nat);
    }
}

} // verus!
