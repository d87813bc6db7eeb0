//! The first state of the swarm, and the step from one iteration to the next.

use crate::error::{Error, ErrorView};
use crate::float::{ArgminFloat, Real};
use crate::ordering;
use crate::particleswarm::initialization;
use crate::particleswarm::initialization::sort_particles;
use crate::particleswarm::motion;
use crate::particleswarm::motion::Weights;
use crate::particleswarm::mutation;
use crate::particleswarm::particle;
use crate::particleswarm::particle::{Particle, ParticleView};
use crate::particleswarm::position::Position;
use crate::particleswarm::solver::ParticleSwarm;
use crate::particleswarm::standing;
use crate::particleswarm::standing::{Standing, StandingView};
use crate::particleswarm::strategy::{MutationApplication, MutationStrategy};
use crate::problem;
use crate::problem::{bulk_cost, CostFunction};
use crate::random;
use crate::random::{NoiseSource, RangeSource};
use crate::text;
use vstd::prelude::*;
use vstd::string::*;

verus! {

/// How far a run of the solver has come.
pub struct SwarmState<P, F> {
    /// The best particle.
    pub individual: Option<Particle<P, F>>,
    /// Its cost.
    pub cost: F,
    /// The particles.
    pub population: Option<Vec<Particle<P, F>>>,
    /// How many iterations there have been.
    pub iter: u64,
}

impl<P, F: Real> SwarmState<P, F> {
    /// The state before the first iteration.
    pub fn new() -> (r: Self)
        ensures
            r.individual is None,
            r.population is None,
            r.cost == F::spec_infinity(),
            r.iter == 0,
    {
        SwarmState { individual: None, cost: F::infinity(), population: None, iter: 0 }
    }
}

/// The state of a swarm whose particles are known.
pub open spec fn is_state<P: View, F>(
    state: SwarmState<P, F>,
    particles: Seq<ParticleView<P::V, F>>,
    best: ParticleView<P::V, F>,
    cost: F,
    iter: u64,
) -> bool {
    &&& state.individual matches Some(individual) && individual@ == best
    &&& state.population matches Some(population) && particle::views(population@) == particles
    &&& state.cost == cost
    &&& state.iter == iter
}

/// What is wrong with a population of the wrong size.
pub open spec fn wrong_size_text(given: nat, expected: nat) -> Seq<char> {
    "`ParticleSwarm`: Provided list of particles is of length "@ + text::decimal_text(given)
        + ", expected "@ + text::decimal_text(expected)
}

/// Whether `particles` may be those of the swarm after it has been initialized with `population`.
pub open spec fn is_initial<O: CostFunction<P, F>, P: Position<F>, F: ArgminFloat, R: RangeSource<F>>(
    problem: O,
    swarm: ParticleSwarm<P, F, R>,
    population: Option<Vec<Particle<P, F>>>,
    particles: Seq<ParticleView<P::V, F>>,
) -> bool {
    match population {
        Some(given) => particles == ordering::sorted(particle::by_cost(), particle::views(given@)),
        None => initialization::is_first_swarm::<O, P, F, R>(problem, swarm, particles),
    }
}

/// Whether the solver mutates positions.
pub open spec fn mutates<P: Position<F>, F: ArgminFloat, R>(swarm: ParticleSwarm<P, F, R>) -> bool {
    !(swarm.mutation_strategy is Disabled) && !(swarm.mutation_application is Disabled)
}

/// Which particles are offered mutated positions.
pub open spec fn chosen<V, F: Real>(
    s: StandingView<V, F>,
    application: MutationApplication,
) -> Seq<usize> {
    match application {
        MutationApplication::AllParticles => standing::everyone(s.particles.len()),
        MutationApplication::BelowAverage => standing::above(
            s.particles,
            standing::average_cost(s.particles),
            s.particles.len(),
        ),
        _ => Seq::empty(),
    }
}

/// What is left of a stream of words after the positions of the first `k` of the particles with the
/// given indices have been mutated by it, one after the other.
pub open spec fn words_after_mutations<P: Position<F>, F: ArgminFloat, R: NoiseSource<F::Wide>>(
    swarm: ParticleSwarm<P, F, R>,
    particles: Seq<ParticleView<P::V, F>>,
    indices: Seq<usize>,
    words: Map<nat, u64>,
    k: nat,
) -> Map<nat, u64>
    decreases k,
{
    if k == 0 {
        words
    } else {
        mutation::mutated_by(
            swarm,
            particles[indices[k - 1] as int].position,
            words_after_mutations(swarm, particles, indices, words, (k - 1) as nat),
        ).1
    }
}

/// Whether `positions` become of the positions of the particles with the given indices by a stream
/// of words.
pub open spec fn are_mutations<P: Position<F>, F: ArgminFloat, R: NoiseSource<F::Wide>>(
    swarm: ParticleSwarm<P, F, R>,
    particles: Seq<ParticleView<P::V, F>>,
    indices: Seq<usize>,
    positions: Seq<P::V>,
    words: Map<nat, u64>,
) -> bool {
    &&& positions.len() == indices.len()
    &&& forall|j: int|
        0 <= j < positions.len() ==> {
            let position = particles[indices[j] as int].position;
            &&& #[trigger] positions[j] == mutation::mutated_by(
                swarm,
                position,
                words_after_mutations(swarm, particles, indices, words, j as nat),
            ).0
            &&& mutation::is_mutation(swarm, position, positions[j])
        }
}

/// Whether `after` may become of `before` where the chosen particles are offered `positions`, which
/// follow from a stream of words.
pub open spec fn is_offer<O: CostFunction<P, F>, P: Position<F>, F: ArgminFloat, R: NoiseSource<F::Wide>>(
    problem: O,
    swarm: ParticleSwarm<P, F, R>,
    before: StandingView<P::V, F>,
    after: StandingView<P::V, F>,
    positions: Seq<P::V>,
    costs: Seq<F>,
    words: Map<nat, u64>,
) -> bool {
    let indices = chosen(before, swarm.mutation_application);
    &&& are_mutations(swarm, before.particles, indices, positions, words)
    &&& problem::are_costs::<O, P, F>(problem, positions, costs)
    &&& after == standing::offered(before, indices, positions, costs, indices.len())
}

/// Whether `after` may become of `before` where the swarm is offered `position`, which follows from a
/// stream of words.
pub open spec fn is_best_offer<O: CostFunction<P, F>, P: Position<F>, F: ArgminFloat, R: NoiseSource<F::Wide>>(
    problem: O,
    swarm: ParticleSwarm<P, F, R>,
    before: StandingView<P::V, F>,
    after: StandingView<P::V, F>,
    position: P::V,
    cost: F,
    words: Map<nat, u64>,
) -> bool {
    &&& position == mutation::mutated_by(swarm, before.best.position, words).0
    &&& mutation::is_mutation(swarm, before.best.position, position)
    &&& problem.may_cost(position, Ok(cost))
    &&& after == standing::with_found(before, position, cost)
}

/// Whether `after` may become of `before` by mutation with a stream of words.
pub open spec fn is_mutated<O: CostFunction<P, F>, P: Position<F>, F: ArgminFloat, R: NoiseSource<F::Wide>>(
    problem: O,
    swarm: ParticleSwarm<P, F, R>,
    before: StandingView<P::V, F>,
    after: StandingView<P::V, F>,
    words: Map<nat, u64>,
) -> bool {
    if !mutates(swarm) {
        after == before
    } else if swarm.mutation_application is GlobalBestOnly {
        exists|position: P::V, cost: F| #[trigger]
            is_best_offer::<O, P, F, R>(problem, swarm, before, after, position, cost, words)
    } else {
        exists|positions: Seq<P::V>, costs: Seq<F>| #[trigger]
            is_offer::<O, P, F, R>(problem, swarm, before, after, positions, costs, words)
    }
}

/// The weights in iteration `iter`.
pub open spec fn weights_at<P: Position<F>, F: ArgminFloat, R>(
    swarm: ParticleSwarm<P, F, R>,
    iter: u64,
) -> Weights<F> {
    let (cognitive, social) = swarm.acceleration_strategy.coefficients(iter, swarm.max_iterations);
    Weights { inertia: swarm.inertia_strategy.advanced().weight(), cognitive, social }
}

/// What is left of the words of the solver's generator after the first `k` particles have moved by
/// them, one after the other.
pub open spec fn words_after_moves<P: Position<F>, F: ArgminFloat, R: RangeSource<F>>(
    swarm: ParticleSwarm<P, F, R>,
    weights: Weights<F>,
    best: P::V,
    particles: Seq<ParticleView<P::V, F>>,
    k: nat,
) -> Map<nat, u64>
    decreases k,
{
    if k == 0 {
        random::stream(swarm.rng_generator)
    } else {
        motion::moved_by(
            swarm,
            weights,
            best,
            particles[k - 1],
            words_after_moves(swarm, weights, best, particles, (k - 1) as nat),
        ).1
    }
}

/// Whether `moved` is where all the particles move.
pub open spec fn are_moved<P: Position<F>, F: ArgminFloat, R: RangeSource<F>>(
    swarm: ParticleSwarm<P, F, R>,
    weights: Weights<F>,
    best: P::V,
    particles: Seq<ParticleView<P::V, F>>,
    moved: Seq<ParticleView<P::V, F>>,
) -> bool {
    &&& moved.len() == particles.len()
    &&& forall|i: int|
        0 <= i < moved.len() ==> {
            &&& #[trigger] moved[i] == motion::moved_by(
                swarm,
                weights,
                best,
                particles[i],
                words_after_moves(swarm, weights, best, particles, i as nat),
            ).0
            &&& motion::is_moved(swarm, weights, best, particles[i], moved[i])
        }
}

/// The words that are left of a stream after mutation.
pub open spec fn words_after_mutation<P: Position<F>, F: ArgminFloat, R: NoiseSource<F::Wide>>(
    swarm: ParticleSwarm<P, F, R>,
    before: StandingView<P::V, F>,
    words: Map<nat, u64>,
) -> Map<nat, u64> {
    if !mutates(swarm) {
        words
    } else if swarm.mutation_application is GlobalBestOnly {
        mutation::mutated_by(swarm, before.best.position, words).1
    } else {
        let indices = chosen(before, swarm.mutation_application);
        words_after_mutations(swarm, before.particles, indices, words, indices.len())
    }
}

/// Whether `positions` are the positions that are offered by mutation with a stream of words.
pub open spec fn are_offered<P: Position<F>, F: ArgminFloat, R: NoiseSource<F::Wide>>(
    swarm: ParticleSwarm<P, F, R>,
    before: StandingView<P::V, F>,
    words: Map<nat, u64>,
    positions: Seq<P::V>,
) -> bool {
    if swarm.mutation_application is GlobalBestOnly {
        positions == seq![mutation::mutated_by(swarm, before.best.position, words).0]
    } else {
        are_mutations(
            swarm,
            before.particles,
            chosen(before, swarm.mutation_application),
            positions,
            words,
        )
    }
}

/// Whether the problem may answer with the error `e` to one of the positions that are offered by
/// mutation with a stream of words.
pub open spec fn is_mutation_failure<
    O: CostFunction<P, F>,
    P: Position<F>,
    F: ArgminFloat,
    R: NoiseSource<F::Wide>,
>(
    problem: O,
    swarm: ParticleSwarm<P, F, R>,
    before: StandingView<P::V, F>,
    words: Map<nat, u64>,
    e: ErrorView,
) -> bool {
    mutates(swarm) && exists|positions: Seq<P::V>| #[trigger]
        are_offered(swarm, before, words, positions) && problem::fails_on::<O, P, F>(
            problem,
            positions,
            e,
        )
}

/// The words that are left of those of the solver's generator after all the particles have moved in
/// iteration `iter`.
pub open spec fn words_after_all_moves<P: Position<F>, F: ArgminFloat, R: RangeSource<F>>(
    swarm: ParticleSwarm<P, F, R>,
    iter: u64,
    before: StandingView<P::V, F>,
) -> Map<nat, u64> {
    words_after_moves(
        swarm,
        weights_at(swarm, iter),
        before.best.position,
        before.particles,
        before.particles.len(),
    )
}

/// What the swarm has found out after the particles have moved to `moved` and learned `costs`.
pub open spec fn learned<V, F: Real>(
    before: StandingView<V, F>,
    moved: Seq<ParticleView<V, F>>,
    costs: Seq<F>,
) -> StandingView<V, F> {
    standing::recorded(StandingView { particles: moved, ..before }, costs, costs.len())
}

/// Whether `after` may become of `before` in iteration `iter`, where the particles move to `moved`
/// and learn `costs`, and `rest` are the words that are left.
pub open spec fn is_step<
    O: CostFunction<P, F>,
    P: Position<F>,
    F: ArgminFloat,
    R: RangeSource<F> + NoiseSource<F::Wide>,
>(
    problem: O,
    swarm: ParticleSwarm<P, F, R>,
    iter: u64,
    before: StandingView<P::V, F>,
    after: StandingView<P::V, F>,
    rest: Map<nat, u64>,
    moved: Seq<ParticleView<P::V, F>>,
    costs: Seq<F>,
) -> bool {
    let words = words_after_all_moves(swarm, iter, before);
    &&& are_moved(swarm, weights_at(swarm, iter), before.best.position, before.particles, moved)
    &&& problem::are_costs::<O, P, F>(problem, standing::positions_of(moved), costs)
    &&& is_mutated::<O, P, F, R>(problem, swarm, learned(before, moved, costs), after, words)
    &&& rest == words_after_mutation(swarm, learned(before, moved, costs), words)
}

/// Whether `after` may become of `before` in iteration `iter`, and `rest` are the words that are
/// left.
pub open spec fn is_iteration<
    O: CostFunction<P, F>,
    P: Position<F>,
    F: ArgminFloat,
    R: RangeSource<F> + NoiseSource<F::Wide>,
>(
    problem: O,
    swarm: ParticleSwarm<P, F, R>,
    iter: u64,
    before: StandingView<P::V, F>,
    after: StandingView<P::V, F>,
    rest: Map<nat, u64>,
) -> bool {
    exists|moved: Seq<ParticleView<P::V, F>>, costs: Seq<F>| #[trigger]
        is_step::<O, P, F, R>(problem, swarm, iter, before, after, rest, moved, costs)
}

/// Whether the problem may answer with the error `e` to one of the positions `moved` or, after the
/// particles have learned `costs`, to one of those that are offered by mutation, and `rest` are the
/// words that are left.
pub open spec fn is_failed_step<
    O: CostFunction<P, F>,
    P: Position<F>,
    F: ArgminFloat,
    R: RangeSource<F> + NoiseSource<F::Wide>,
>(
    problem: O,
    swarm: ParticleSwarm<P, F, R>,
    iter: u64,
    before: StandingView<P::V, F>,
    e: ErrorView,
    rest: Map<nat, u64>,
    moved: Seq<ParticleView<P::V, F>>,
    costs: Seq<F>,
) -> bool {
    let words = words_after_all_moves(swarm, iter, before);
    &&& are_moved(swarm, weights_at(swarm, iter), before.best.position, before.particles, moved)
    &&& {
        ||| problem::fails_on::<O, P, F>(problem, standing::positions_of(moved), e) && rest
            == words
        ||| {
            &&& problem::are_costs::<O, P, F>(problem, standing::positions_of(moved), costs)
            &&& is_mutation_failure::<O, P, F, R>(
                problem,
                swarm,
                learned(before, moved, costs),
                words,
                e,
            )
            &&& rest == words_after_mutation(swarm, learned(before, moved, costs), words)
        }
    }
}

/// Whether iteration `iter` may fail with the error `e`, and `rest` are the words that are left.
pub open spec fn is_failed_iteration<
    O: CostFunction<P, F>,
    P: Position<F>,
    F: ArgminFloat,
    R: RangeSource<F> + NoiseSource<F::Wide>,
>(
    problem: O,
    swarm: ParticleSwarm<P, F, R>,
    iter: u64,
    before: StandingView<P::V, F>,
    e: ErrorView,
    rest: Map<nat, u64>,
) -> bool {
    exists|moved: Seq<ParticleView<P::V, F>>, costs: Seq<F>| #[trigger]
        is_failed_step::<O, P, F, R>(problem, swarm, iter, before, e, rest, moved, costs)
}

/// Whether the solver can do an iteration from a state.
pub open spec fn is_ready<P: Position<F>, F: ArgminFloat, R>(
    swarm: ParticleSwarm<P, F, R>,
    best: P::V,
    particles: Seq<ParticleView<P::V, F>>,
) -> bool {
    &&& motion::is_space(swarm)
    &&& mutates(swarm) ==> mutation::can_mutate(swarm)
    &&& P::dimension(best) == P::dimension(swarm.bounds.0@)
    &&& forall|i: int|
        0 <= i < particles.len() ==> motion::is_movable(swarm, best, #[trigger] particles[i])
}

/// Whether all the particles are inside the bounds.
pub open spec fn are_inside<P: Position<F>, F: ArgminFloat, R>(
    swarm: ParticleSwarm<P, F, R>,
    particles: Seq<ParticleView<P::V, F>>,
) -> bool {
    forall|i: int|
        0 <= i < particles.len() ==> P::is_inside(
            swarm.bounds.0@,
            (#[trigger] particles[i]).position,
            swarm.bounds.1@,
        )
}

/// The error for a population of the wrong size.
fn wrong_size(given: usize, expected: usize) -> (r: Error)
    ensures
        r@ == ErrorView::InvalidParameter(wrong_size_text(given as nat, expected as nat)),
{
    let mut text = "`ParticleSwarm`: Provided list of particles is of length ".to_string();
    text.append(text::decimal(given as u64).as_str());
    text.append(", expected ");
    text.append(text::decimal(expected as u64).as_str());
    Error::InvalidParameter { text }
}

/// The costs of the positions of some particles.
fn particle_costs<O: CostFunction<P, F>, P: Position<F>, F: ArgminFloat>(
    problem: &O,
    particles: &Vec<Particle<P, F>>,
) -> (r: Result<Vec<F>, Error>)
    ensures
        match r {
            Ok(costs) => problem::are_costs::<O, P, F>(
                *problem,
                standing::positions_of(particle::views(particles@)),
                costs@,
            ),
            Err(e) => problem::fails_on::<O, P, F>(
                *problem,
                standing::positions_of(particle::views(particles@)),
                e@,
            ),
        },
{
    let mut positions: Vec<&P> = Vec::new();
    let mut k: usize = 0;
    while k < particles.len()
        invariant
            k <= particles@.len(),
            positions@.len() == k,
            forall|i: int|
                0 <= i < k ==> *(#[trigger] positions@[i]) == particles@[i].position,
        decreases particles@.len() - k,
    {
        positions.push(&particles[k].position);
        k = k + 1;
    }
    let r = problem.bulk_cost(&positions);
    proof {
        if r is Err {
            let e = r->Err_0;
            let i = choose|i: int|
                0 <= i < positions@.len() && problem.may_cost(#[trigger] positions@[i]@, Err(e@));
            assert(standing::positions_of(particle::views(particles@))[i] == positions@[i]@);
        }
    }
    r
}

impl<
    P: Position<F>,
    F: ArgminFloat,
    R: RangeSource<F> + NoiseSource<F::Wide>,
> ParticleSwarm<P, F, R> {
    /// Puts the particles of the population in order, or makes new ones if there is none.
    pub fn init<O: CostFunction<P, F>>(&mut self, problem: &O, state: SwarmState<P, F>) -> (r: Result<
        SwarmState<P, F>,
        Error,
    >)
        requires
            match state.population {
                Some(given) => given@.len() == 0,
                None => true,
            } ==> old(self).num_particles > 0,
            state.population is None ==> initialization::can_start(*old(self)),
        ensures
            motion::same_settings(*old(self), *final(self)),
            match r {
                Ok(next) => {
                    &&& next.population matches Some(population)
                    &&& population@.len() == old(self).num_particles
                    &&& is_initial::<O, P, F, R>(
                        *problem,
                        *old(self),
                        state.population,
                        particle::views(population@),
                    )
                    &&& is_state(
                        next,
                        particle::views(population@),
                        particle::views(population@)[0],
                        population@[0].cost,
                        state.iter,
                    )
                },
                Err(e) => match state.population {
                    Some(given) => given@.len() != old(self).num_particles && e@
                        == ErrorView::InvalidParameter(
                        wrong_size_text(given@.len(), old(self).num_particles as nat),
                    ),
                    None => initialization::is_first_failure::<O, P, F, R>(
                        *problem,
                        *old(self),
                        e@,
                    ),
                },
            },
            random::stream(final(self).rng_generator) == match state.population {
                Some(_) => random::stream(old(self).rng_generator),
                None => match r {
                    Ok(_) => initialization::words_after_first_swarm(*old(self)),
                    Err(_) => initialization::words_after_placing(*old(self)),
                },
            },
            match state.population {
                Some(given) => given@.len() == old(self).num_particles,
                None => problem::never_fails::<O, P, F>(*problem),
            } ==> r is Ok,
    {
        let particles = match state.population {
            Some(given) => {
                if given.len() != self.num_particles {
                    return Err(wrong_size(given.len(), self.num_particles));
                }
                sort_particles(given)
            },
            None => match self.initialize_particles(problem) {
                Err(e) => {
                    return Err(e);
                },
                Ok(particles) => particles,
            },
        };
        let individual = particles[0].duplicate();
        let cost = particles[0].cost;
        Ok(
            SwarmState {
                individual: Some(individual),
                cost,
                population: Some(particles),
                iter: state.iter,
            },
        )
    }

    /// Moves all the particles.
    fn move_particles(
        &mut self,
        particles: Vec<Particle<P, F>>,
        best: &P,
        weights: Weights<F>,
    ) -> (r: Vec<Particle<P, F>>)
        requires
            motion::is_space(*old(self)),
            forall|i: int|
                0 <= i < particles@.len() ==> motion::is_movable(
                    *old(self),
                    best@,
                    (#[trigger] particles@[i])@,
                ),
        ensures
            motion::same_settings(*old(self), *final(self)),
            are_moved(
                *old(self),
                weights,
                best@,
                particle::views(particles@),
                particle::views(r@),
            ),
            random::stream(final(self).rng_generator) == words_after_moves(
                *old(self),
                weights,
                best@,
                particle::views(particles@),
                particles@.len(),
            ),
            forall|i: int|
                0 <= i < r@.len() ==> P::dimension((#[trigger] r@[i]).position@) == P::dimension(
                    old(self).bounds.0@,
                ),
            P::is_inside(old(self).bounds.0@, old(self).bounds.0@, old(self).bounds.1@)
                ==> are_inside(*old(self), particle::views(r@)),
    {
        let ghost swarm = *self;
        let ghost before_all = particle::views(particles@);
        let mut r: Vec<Particle<P, F>> = Vec::new();
        for p in it: particles
            invariant
                motion::is_space(swarm),
                motion::same_settings(swarm, *self),
                before_all == particle::views(it.seq()),
                random::stream(self.rng_generator) == words_after_moves(
                    swarm,
                    weights,
                    best@,
                    before_all,
                    it.index() as nat,
                ),
                forall|i: int|
                    0 <= i < r@.len() ==> (#[trigger] r@[i])@ == motion::moved_by(
                        swarm,
                        weights,
                        best@,
                        before_all[i],
                        words_after_moves(swarm, weights, best@, before_all, i as nat),
                    ).0,
                forall|i: int|
                    0 <= i < it.seq().len() ==> motion::is_movable(
                        swarm,
                        best@,
                        (#[trigger] it.seq()[i])@,
                    ),
                r@.len() == it.index(),
                forall|i: int|
                    0 <= i < r@.len() ==> motion::is_moved(
                        swarm,
                        weights,
                        best@,
                        it.seq()[i]@,
                        (#[trigger] r@[i])@,
                    ),
                forall|i: int|
                    0 <= i < r@.len() ==> P::dimension((#[trigger] r@[i]).position@)
                        == P::dimension(swarm.bounds.0@),
                P::is_inside(swarm.bounds.0@, swarm.bounds.0@, swarm.bounds.1@) ==> forall|i: int|
                    0 <= i < r@.len() ==> P::is_inside(
                        swarm.bounds.0@,
                        (#[trigger] r@[i]).position@,
                        swarm.bounds.1@,
                    ),
        {
            let ghost now = *self;
            let ghost before = p@;
            let q = self.move_particle(p, best, weights);
            proof {
                lemma_moved_ignores_generator(now, swarm, weights, best@, before, q@);
            }
            r.push(q);
        }
        r
    }

    /// Mutated positions for the particles with the given indices.
    fn mutate_some(&mut self, particles: &Vec<Particle<P, F>>, indices: &Vec<usize>) -> (r: Vec<P>)
        requires
            mutation::can_mutate(*old(self)),
            forall|j: int| 0 <= j < indices@.len() ==> #[trigger] indices@[j] < particles@.len(),
            forall|i: int|
                0 <= i < particles@.len() ==> P::dimension((#[trigger] particles@[i]).position@)
                    == P::dimension(old(self).bounds.0@),
        ensures
            motion::same_settings(*old(self), *final(self)),
            are_mutations(
                *old(self),
                particle::views(particles@),
                indices@,
                problem::views(r@),
                random::stream(old(self).rng_generator),
            ),
            random::stream(final(self).rng_generator) == words_after_mutations(
                *old(self),
                particle::views(particles@),
                indices@,
                random::stream(old(self).rng_generator),
                indices@.len(),
            ),
            P::is_inside(old(self).bounds.0@, old(self).bounds.0@, old(self).bounds.1@)
                && are_inside(*old(self), particle::views(particles@)) ==> forall|j: int|
                0 <= j < r@.len() ==> P::is_inside(
                    old(self).bounds.0@,
                    (#[trigger] r@[j])@,
                    old(self).bounds.1@,
                ),
    {
        let ghost swarm = *self;
        let ghost inside = P::is_inside(swarm.bounds.0@, swarm.bounds.0@, swarm.bounds.1@)
            && are_inside(swarm, particle::views(particles@));
        let ghost words = random::stream(self.rng_generator);
        let mut r: Vec<P> = Vec::new();
        let mut k: usize = 0;
        while k < indices.len()
            invariant
                k <= indices@.len(),
                mutation::can_mutate(swarm),
                motion::same_settings(swarm, *self),
                inside == (P::is_inside(swarm.bounds.0@, swarm.bounds.0@, swarm.bounds.1@)
                    && are_inside(swarm, particle::views(particles@))),
                forall|j: int|
                    0 <= j < indices@.len() ==> #[trigger] indices@[j] < particles@.len(),
                forall|i: int|
                    0 <= i < particles@.len() ==> P::dimension((#[trigger] particles@[i]).position@)
                        == P::dimension(swarm.bounds.0@),
                r@.len() == k,
                words == random::stream(swarm.rng_generator),
                random::stream(self.rng_generator) == words_after_mutations(
                    swarm,
                    particle::views(particles@),
                    indices@,
                    words,
                    k as nat,
                ),
                forall|j: int|
                    0 <= j < k ==> (#[trigger] r@[j])@ == mutation::mutated_by(
                        swarm,
                        particle::views(particles@)[indices@[j] as int].position,
                        words_after_mutations(
                            swarm,
                            particle::views(particles@),
                            indices@,
                            words,
                            j as nat,
                        ),
                    ).0,
                forall|j: int|
                    0 <= j < k ==> mutation::is_mutation(
                        swarm,
                        particle::views(particles@)[indices@[j] as int].position,
                        (#[trigger] r@[j])@,
                    ),
                inside ==> forall|j: int|
                    0 <= j < k ==> P::is_inside(
                        swarm.bounds.0@,
                        (#[trigger] r@[j])@,
                        swarm.bounds.1@,
                    ),
            decreases indices@.len() - k,
        {
            let i: usize = indices[k];
            let ghost now = *self;
            proof {
                if inside {
                    assert(P::is_inside(
                        swarm.bounds.0@,
                        particle::views(particles@)[i as int].position,
                        swarm.bounds.1@,
                    ));
                }
            }
            let position = self.apply_mutation(&particles[i].position);
            proof {
                lemma_mutation_ignores_generator(
                    now,
                    swarm,
                    particles@[i as int].position@,
                    position@,
                );
            }
            r.push(position);
            k = k + 1;
        }
        r
    }

    /// Applies mutation based on the selected application strategy.
    fn mutate<O: CostFunction<P, F>>(&mut self, problem: &O, standing: Standing<P, F>) -> (r: Result<
        Standing<P, F>,
        Error,
    >)
        requires
            mutates(*old(self)) ==> mutation::can_mutate(*old(self)),
            P::dimension(standing.best.position@) == P::dimension(old(self).bounds.0@),
            forall|i: int|
                0 <= i < standing.particles@.len() ==> P::dimension(
                    (#[trigger] standing.particles@[i]).position@,
                ) == P::dimension(old(self).bounds.0@),
        ensures
            motion::same_settings(*old(self), *final(self)),
            match r {
                Ok(after) => {
                    &&& is_mutated::<O, P, F, R>(
                        *problem,
                        *old(self),
                        standing@,
                        after@,
                        random::stream(old(self).rng_generator),
                    )
                    &&& P::is_inside(
                        old(self).bounds.0@,
                        old(self).bounds.0@,
                        old(self).bounds.1@,
                    ) && are_inside(*old(self), standing@.particles) ==> are_inside(
                        *old(self),
                        after@.particles,
                    )
                },
                Err(e) => is_mutation_failure::<O, P, F, R>(
                    *problem,
                    *old(self),
                    standing@,
                    random::stream(old(self).rng_generator),
                    e@,
                ),
            },
            random::stream(final(self).rng_generator) == words_after_mutation(
                *old(self),
                standing@,
                random::stream(old(self).rng_generator),
            ),
    {
        let ghost swarm = *self;
        let ghost before = standing@;
        let ghost words = random::stream(self.rng_generator);
        let mut standing = standing;
        match self.mutation_strategy {
            MutationStrategy::Disabled => {
                return Ok(standing);
            },
            _ => {},
        }
        let indices: Vec<usize> = match self.mutation_application {
            MutationApplication::Disabled => {
                return Ok(standing);
            },
            MutationApplication::GlobalBestOnly => {
                let position = self.apply_mutation(&standing.best.position);
                match problem.cost(&position) {
                    Err(e) => {
                        proof {
                            let offered = seq![position@];
                            assert(are_offered(swarm, before, words, offered));
                            assert(problem.may_cost(offered[0], Err(e@)));
                        }
                        return Err(e);
                    },
                    Ok(cost) => {
                        standing.offer_best(&position, cost);
                        assert(is_best_offer::<O, P, F, R>(
                            *problem,
                            swarm,
                            before,
                            standing@,
                            position@,
                            cost,
                            words,
                        ));
                        return Ok(standing);
                    },
                }
            },
            MutationApplication::AllParticles => all_indices(standing.particles.len()),
            MutationApplication::BelowAverage => standing.below_average(),
        };
        let positions = self.mutate_some(&standing.particles, &indices);
        let costs = match bulk_cost(problem, &positions) {
            Err(e) => {
                assert(are_offered(swarm, before, words, problem::views(positions@)));
                return Err(e);
            },
            Ok(costs) => costs,
        };
        standing.offer_all(&indices, &positions, &costs);
        proof {
            assert(is_offer::<O, P, F, R>(
                *problem,
                swarm,
                before,
                standing@,
                problem::views(positions@),
                costs@,
                words,
            ));
            if P::is_inside(swarm.bounds.0@, swarm.bounds.0@, swarm.bounds.1@) && are_inside(
                swarm,
                before.particles,
            ) {
                lemma_offered_inside(
                    swarm,
                    before,
                    indices@,
                    problem::views(positions@),
                    costs@,
                    indices@.len(),
                );
            }
        }
        Ok(standing)
    }

    /// Perform one iteration of algorithm
    pub fn next_iter<O: CostFunction<P, F>>(&mut self, problem: &O, state: SwarmState<P, F>) -> (r:
        Result<SwarmState<P, F>, Error>)
        requires
            (state.individual, state.population) matches (Some(best), Some(population)) ==> is_ready(
                *old(self),
                best.position@,
                particle::views(population@),
            ),
        ensures
            *final(self) == (ParticleSwarm {
                inertia_strategy: old(self).inertia_strategy.advanced(),
                rng_generator: final(self).rng_generator,
                ..*old(self)
            }),
            state.individual is None || state.population is None ==> random::stream(
                final(self).rng_generator,
            ) == random::stream(old(self).rng_generator),
            match (state.individual, state.population) {
                (None, _) => r matches Err(e) && e@ == ErrorView::PotentialBug(
                    "`ParticleSwarm`: No current best individual in state."@,
                ),
                (Some(_), None) => r matches Err(e) && e@ == ErrorView::PotentialBug(
                    "`ParticleSwarm`: No population in state."@,
                ),
                (Some(best), Some(population)) => match r {
                    Err(e) => is_failed_iteration::<O, P, F, R>(
                        *problem,
                        *old(self),
                        state.iter,
                        StandingView {
                            particles: particle::views(population@),
                            best: best@,
                            best_cost: state.cost,
                        },
                        e@,
                        random::stream(final(self).rng_generator),
                    ),
                    Ok(next) => {
                        let before = StandingView {
                            particles: particle::views(population@),
                            best: best@,
                            best_cost: state.cost,
                        };
                        &&& next.individual matches Some(new_best)
                        &&& next.population matches Some(new_population)
                        &&& next.iter == state.iter
                        &&& ({
                            let after = StandingView {
                                particles: particle::views(new_population@),
                                best: new_best@,
                                best_cost: next.cost,
                            };
                            &&& is_iteration::<O, P, F, R>(
                                *problem,
                                *old(self),
                                state.iter,
                                before,
                                after,
                                random::stream(final(self).rng_generator),
                            )
                            &&& P::is_inside(
                                old(self).bounds.0@,
                                old(self).bounds.0@,
                                old(self).bounds.1@,
                            ) ==> are_inside(*old(self), after.particles)
                        })
                    },
                },
            },
            state.individual is Some && state.population is Some && problem::never_fails::<O, P, F>(
                *problem,
            ) ==> r is Ok,
    {
        let (weight_cognitive, weight_social) = self.get_acceleration_coefficients(state.iter);
        let weight_inertia = self.get_inertia_weight();
        let ghost swarm = *old(self);
        let ghost advanced = *self;
        let weights = Weights {
            inertia: weight_inertia,
            cognitive: weight_cognitive,
            social: weight_social,
        };
        let iter = state.iter;
        let best_cost = state.cost;
        let best = match state.individual {
            None => {
                return Err(
                    Error::potential_bug("`ParticleSwarm`: No current best individual in state."),
                );
            },
            Some(best) => best,
        };
        let particles = match state.population {
            None => {
                return Err(Error::potential_bug("`ParticleSwarm`: No population in state."));
            },
            Some(particles) => particles,
        };
        let ghost before = StandingView {
            particles: particle::views(particles@),
            best: best@,
            best_cost,
        };
        proof {
            assert forall|i: int| 0 <= i < particles@.len() implies motion::is_movable(
                *self,
                best.position@,
                (#[trigger] particles@[i])@,
            ) by {
                assert(motion::is_movable(swarm, best.position@, before.particles[i]));
            }
        }
        let moved = self.move_particles(particles, &best.position, weights);
        let ghost moved_views = particle::views(moved@);
        proof {
            lemma_moves_ignore_weights(
                advanced,
                swarm,
                weights,
                best.position@,
                before.particles,
                before.particles.len(),
            );
            assert forall|i: int| 0 <= i < moved_views.len() implies #[trigger] moved_views[i]
                == motion::moved_by(
                swarm,
                weights,
                best.position@,
                before.particles[i],
                words_after_moves(swarm, weights, best.position@, before.particles, i as nat),
            ).0 && motion::is_moved(
                swarm,
                weights,
                best.position@,
                before.particles[i],
                moved_views[i],
            ) by {
                lemma_moves_ignore_weights(
                    advanced,
                    swarm,
                    weights,
                    best.position@,
                    before.particles,
                    i as nat,
                );
                lemma_moved_ignores_generator(
                    advanced,
                    swarm,
                    weights,
                    best.position@,
                    before.particles[i],
                    moved_views[i],
                );
            }
        }
        let costs = match particle_costs(problem, &moved) {
            Err(e) => {
                assert(is_failed_step::<O, P, F, R>(
                    *problem,
                    swarm,
                    iter,
                    before,
                    e@,
                    random::stream(self.rng_generator),
                    moved_views,
                    Seq::empty(),
                ));
                return Err(e);
            },
            Ok(costs) => costs,
        };
        let mut standing = Standing { particles: moved, best, best_cost };
        let ghost known = learned(before, moved_views, costs@);
        proof {
            standing::law_recorded(
                StandingView { particles: moved_views, ..before },
                costs@,
                costs@.len(),
            );
            lemma_recorded_dimension::<P, F>(
                StandingView { particles: moved_views, ..before },
                costs@,
                costs@.len(),
                P::dimension(swarm.bounds.0@),
            );
        }
        standing.record(&costs);
        let ghost now = *self;
        proof {
            assert forall|i: int| 0 <= i < standing.particles@.len() implies P::dimension(
                (#[trigger] standing.particles@[i]).position@,
            ) == P::dimension(self.bounds.0@) by {
                assert(known.particles[i] == standing.particles@[i]@);
            }
            if P::is_inside(swarm.bounds.0@, swarm.bounds.0@, swarm.bounds.1@) {
                assert forall|i: int| 0 <= i < known.particles.len() implies P::is_inside(
                    now.bounds.0@,
                    (#[trigger] known.particles[i]).position,
                    now.bounds.1@,
                ) by {
                    assert(standing::positions_of(known.particles)[i] == standing::positions_of(
                        moved_views,
                    )[i]);
                    assert(P::is_inside(
                        swarm.bounds.0@,
                        moved_views[i].position,
                        swarm.bounds.1@,
                    ));
                }
            }
        }
        match self.mutate(problem, standing) {
            Err(e) => {
                proof {
                    lemma_mutation_failure_ignores_generator::<O, P, F, R>(
                        *problem,
                        now,
                        swarm,
                        known,
                        random::stream(now.rng_generator),
                        e@,
                    );
                    assert(is_failed_step::<O, P, F, R>(
                        *problem,
                        swarm,
                        iter,
                        before,
                        e@,
                        random::stream(self.rng_generator),
                        moved_views,
                        costs@,
                    ));
                }
                Err(e)
            },
            Ok(after) => {
                proof {
                    lemma_mutated_ignores_generator::<O, P, F, R>(
                        *problem,
                        now,
                        swarm,
                        known,
                        after@,
                        random::stream(now.rng_generator),
                    );
                    assert(is_step::<O, P, F, R>(
                        *problem,
                        swarm,
                        iter,
                        before,
                        after@,
                        random::stream(self.rng_generator),
                        moved_views,
                        costs@,
                    ));
                    assert(after@ == StandingView {
                        particles: particle::views(after.particles@),
                        best: after.best@,
                        best_cost: after.best_cost,
                    });
                }
                Ok(
                    SwarmState {
                        individual: Some(after.best),
                        cost: after.best_cost,
                        population: Some(after.particles),
                        iter,
                    },
                )
            },
        }
    }
}

/// All the particles.
fn all_indices(n: usize) -> (r: Vec<usize>)
    ensures
        r@ == standing::everyone(n as nat),
{
    let mut r: Vec<usize> = Vec::new();
    let mut k: usize = 0;
    while k < n
        invariant
            k <= n,
            r@ == standing::everyone(k as nat),
        decreases n - k,
    {
        r.push(k);
        k = k + 1;
    }
    r
}

/// Where a particle may move depends on the settings that movement has to do with.
proof fn lemma_moved_ignores_generator<P: Position<F>, F: ArgminFloat, R>(
    a: ParticleSwarm<P, F, R>,
    b: ParticleSwarm<P, F, R>,
    weights: Weights<F>,
    best: P::V,
    p: ParticleView<P::V, F>,
    q: ParticleView<P::V, F>,
)
    requires
        a.bounds == b.bounds,
        a.velocity_clamp_factor == b.velocity_clamp_factor,
        a.velocity_mutation_threshold == b.velocity_mutation_threshold,
        motion::is_moved(a, weights, best, p, q),
    ensures
        motion::is_moved(b, weights, best, p, q),
{
    let (x, y, z) = choose|x: P::V, y: P::V, z: P::V| #[trigger]
        motion::is_pulled(a, weights, best, p, q, x, y, z);
    assert(motion::is_pulled(b, weights, best, p, q, x, y, z));
}

/// Where the particles move depends on the settings that movement has to do with.
proof fn lemma_moves_ignore_weights<P: Position<F>, F: ArgminFloat, R: RangeSource<F>>(
    a: ParticleSwarm<P, F, R>,
    b: ParticleSwarm<P, F, R>,
    weights: Weights<F>,
    best: P::V,
    particles: Seq<ParticleView<P::V, F>>,
    k: nat,
)
    requires
        a.bounds == b.bounds,
        a.velocity_clamp_factor == b.velocity_clamp_factor,
        a.velocity_mutation_threshold == b.velocity_mutation_threshold,
        a.rng_generator == b.rng_generator,
    ensures
        words_after_moves(a, weights, best, particles, k) == words_after_moves(
            b,
            weights,
            best,
            particles,
            k,
        ),
    decreases k,
{
    if k > 0 {
        lemma_moves_ignore_weights(a, b, weights, best, particles, (k - 1) as nat);
    }
}

/// What is left of a stream depends on the settings that mutation has to do with.
proof fn lemma_mutations_ignore_generator<
    P: Position<F>,
    F: ArgminFloat,
    R: NoiseSource<F::Wide>,
>(
    a: ParticleSwarm<P, F, R>,
    b: ParticleSwarm<P, F, R>,
    particles: Seq<ParticleView<P::V, F>>,
    indices: Seq<usize>,
    words: Map<nat, u64>,
    k: nat,
)
    requires
        a.bounds == b.bounds,
        a.mutation_strategy == b.mutation_strategy,
        a.mutation_probability == b.mutation_probability,
    ensures
        words_after_mutations(a, particles, indices, words, k) == words_after_mutations(
            b,
            particles,
            indices,
            words,
            k,
        ),
    decreases k,
{
    if k > 0 {
        lemma_mutations_ignore_generator(a, b, particles, indices, words, (k - 1) as nat);
    }
}

/// What may become of a position depends on the settings that mutation has to do with.
proof fn lemma_mutation_ignores_generator<P: Position<F>, F: ArgminFloat, R: NoiseSource<F::Wide>>(
    a: ParticleSwarm<P, F, R>,
    b: ParticleSwarm<P, F, R>,
    position: P::V,
    r: P::V,
)
    requires
        a.bounds == b.bounds,
        a.mutation_strategy == b.mutation_strategy,
        a.mutation_probability == b.mutation_probability,
        mutation::is_mutation(a, position, r),
    ensures
        mutation::is_mutation(b, position, r),
{
    let chance = choose|chance: F::Wide|
        random::is_unit(chance) && #[trigger] mutation::is_mutation_at(
            a,
            position,
            chance,
            r,
        );
    if mutation::is_perturbed(a, position, r) {
        let noise = choose|noise: F::Wide|
            mutation::may_be_noise::<F::Wide, R>(a.mutation_strategy, noise) && r
                == #[trigger] mutation::perturbed::<P, F>(
                position,
                a.bounds.0@,
                a.bounds.1@,
                noise,
            );
        assert(r == mutation::perturbed::<P, F>(position, b.bounds.0@, b.bounds.1@, noise));
    }
    assert(mutation::is_mutation_at(b, position, chance, r));
}

/// Which positions become of others depends on the settings that mutation has to do with.
proof fn lemma_are_mutations_ignore_generator<
    P: Position<F>,
    F: ArgminFloat,
    R: NoiseSource<F::Wide>,
>(
    a: ParticleSwarm<P, F, R>,
    b: ParticleSwarm<P, F, R>,
    particles: Seq<ParticleView<P::V, F>>,
    indices: Seq<usize>,
    positions: Seq<P::V>,
    words: Map<nat, u64>,
)
    requires
        a.bounds == b.bounds,
        a.mutation_strategy == b.mutation_strategy,
        a.mutation_probability == b.mutation_probability,
        are_mutations(a, particles, indices, positions, words),
    ensures
        are_mutations(b, particles, indices, positions, words),
{
    assert forall|j: int| 0 <= j < positions.len() implies #[trigger] positions[j]
        == mutation::mutated_by(
        b,
        particles[indices[j] as int].position,
        words_after_mutations(b, particles, indices, words, j as nat),
    ).0 && mutation::is_mutation(b, particles[indices[j] as int].position, positions[j]) by {
        lemma_mutations_ignore_generator(a, b, particles, indices, words, j as nat);
        lemma_mutation_ignores_generator(
            a,
            b,
            particles[indices[j] as int].position,
            positions[j],
        );
    }
}

/// Which words are left after mutation depends on the settings that mutation has to do with.
proof fn lemma_words_after_mutation_ignore_generator<
    P: Position<F>,
    F: ArgminFloat,
    R: NoiseSource<F::Wide>,
>(
    a: ParticleSwarm<P, F, R>,
    b: ParticleSwarm<P, F, R>,
    before: StandingView<P::V, F>,
    words: Map<nat, u64>,
)
    requires
        a.bounds == b.bounds,
        a.mutation_strategy == b.mutation_strategy,
        a.mutation_probability == b.mutation_probability,
        a.mutation_application == b.mutation_application,
    ensures
        words_after_mutation(a, before, words) == words_after_mutation(b, before, words),
{
    let indices = chosen(before, a.mutation_application);
    lemma_mutations_ignore_generator(a, b, before.particles, indices, words, indices.len());
}

/// Whether mutation may fail depends on the settings that it has to do with.
proof fn lemma_mutation_failure_ignores_generator<
    O: CostFunction<P, F>,
    P: Position<F>,
    F: ArgminFloat,
    R: NoiseSource<F::Wide>,
>(
    problem: O,
    a: ParticleSwarm<P, F, R>,
    b: ParticleSwarm<P, F, R>,
    before: StandingView<P::V, F>,
    words: Map<nat, u64>,
    e: ErrorView,
)
    requires
        a.bounds == b.bounds,
        a.mutation_strategy == b.mutation_strategy,
        a.mutation_probability == b.mutation_probability,
        a.mutation_application == b.mutation_application,
        is_mutation_failure::<O, P, F, R>(problem, a, before, words, e),
    ensures
        is_mutation_failure::<O, P, F, R>(problem, b, before, words, e),
        words_after_mutation(a, before, words) == words_after_mutation(b, before, words),
{
    lemma_words_after_mutation_ignore_generator(a, b, before, words);
    let positions = choose|positions: Seq<P::V>| #[trigger]
        are_offered(a, before, words, positions) && problem::fails_on::<O, P, F>(
            problem,
            positions,
            e,
        );
    if !(a.mutation_application is GlobalBestOnly) {
        lemma_are_mutations_ignore_generator(
            a,
            b,
            before.particles,
            chosen(before, a.mutation_application),
            positions,
            words,
        );
    }
    assert(are_offered(b, before, words, positions));
}

/// What may become of a standing depends on the settings that mutation has to do with.
proof fn lemma_mutated_ignores_generator<
    O: CostFunction<P, F>,
    P: Position<F>,
    F: ArgminFloat,
    R: NoiseSource<F::Wide>,
>(
    problem: O,
    a: ParticleSwarm<P, F, R>,
    b: ParticleSwarm<P, F, R>,
    before: StandingView<P::V, F>,
    after: StandingView<P::V, F>,
    words: Map<nat, u64>,
)
    requires
        a.bounds == b.bounds,
        a.mutation_strategy == b.mutation_strategy,
        a.mutation_probability == b.mutation_probability,
        a.mutation_application == b.mutation_application,
        is_mutated::<O, P, F, R>(problem, a, before, after, words),
    ensures
        is_mutated::<O, P, F, R>(problem, b, before, after, words),
        words_after_mutation(a, before, words) == words_after_mutation(b, before, words),
{
    lemma_words_after_mutation_ignore_generator(a, b, before, words);
    if mutates(a) {
        if a.mutation_application is GlobalBestOnly {
            let (position, cost) = choose|position: P::V, cost: F| #[trigger]
                is_best_offer::<O, P, F, R>(problem, a, before, after, position, cost, words);
            lemma_mutation_ignores_generator(a, b, before.best.position, position);
            assert(is_best_offer::<O, P, F, R>(problem, b, before, after, position, cost, words));
        } else {
            let (positions, costs) = choose|positions: Seq<P::V>, costs: Seq<F>| #[trigger]
                is_offer::<O, P, F, R>(problem, a, before, after, positions, costs, words);
            let indices = chosen(before, a.mutation_application);
            lemma_are_mutations_ignore_generator(a, b, before.particles, indices, positions, words);
            assert(is_offer::<O, P, F, R>(problem, b, before, after, positions, costs, words));
        }
    }
}

/// Particles that are offered positions inside the bounds stay inside them.
proof fn lemma_offered_inside<P: Position<F>, F: ArgminFloat, R>(
    swarm: ParticleSwarm<P, F, R>,
    s: StandingView<P::V, F>,
    indices: Seq<usize>,
    positions: Seq<P::V>,
    costs: Seq<F>,
    k: nat,
)
    requires
        k <= indices.len(),
        positions.len() == indices.len(),
        forall|j: int| 0 <= j < indices.len() ==> #[trigger] indices[j] < s.particles.len(),
        are_inside(swarm, s.particles),
        forall|j: int|
            0 <= j < positions.len() ==> P::is_inside(
                swarm.bounds.0@,
                #[trigger] positions[j],
                swarm.bounds.1@,
            ),
    ensures
        are_inside(swarm, standing::offered(s, indices, positions, costs, k).particles),
        standing::offered(s, indices, positions, costs, k).particles.len() == s.particles.len(),
    decreases k,
{
    if k > 0 {
        lemma_offered_inside(swarm, s, indices, positions, costs, (k - 1) as nat);
        let before = standing::offered(s, indices, positions, costs, (k - 1) as nat);
        let after = standing::offered(s, indices, positions, costs, k);
        assert forall|i: int| 0 <= i < after.particles.len() implies P::is_inside(
            swarm.bounds.0@,
            (#[trigger] after.particles[i]).position,
            swarm.bounds.1@,
        ) by {
            assert(P::is_inside(
                swarm.bounds.0@,
                before.particles[i].position,
                swarm.bounds.1@,
            ));
        }
    }
}

/// Learning costs keeps the number of coordinates of all positions.
proof fn lemma_recorded_dimension<P: Position<F>, F: ArgminFloat>(
    s: StandingView<P::V, F>,
    costs: Seq<F>,
    k: nat,
    n: nat,
)
    requires
        k <= s.particles.len(),
        P::dimension(s.best.position) == n,
        forall|i: int|
            0 <= i < s.particles.len() ==> P::dimension((#[trigger] s.particles[i]).position) == n,
    ensures
        P::dimension(standing::recorded(s, costs, k).best.position) == n,
        forall|i: int|
            0 <= i < standing::recorded(s, costs, k).particles.len() ==> P::dimension(
                (#[trigger] standing::recorded(s, costs, k).particles[i]).position,
            ) == n,
    decreases k,
{
    if k > 0 {
        lemma_recorded_dimension::<P, F>(s, costs, (k - 1) as nat, n);
        standing::law_recorded(s, costs, (k - 1) as nat);
    }
}

} // verus!
