//! What holds of the swarm over its iterations.

use crate::float;
use crate::float::{ArgminFloat, Real};
use crate::ordering;
use crate::particleswarm::initialization;
use crate::particleswarm::iteration;
use crate::particleswarm::motion;
use crate::particleswarm::mutation;
use crate::particleswarm::particle;
use crate::particleswarm::particle::ParticleView;
use crate::particleswarm::position::Position;
use crate::particleswarm::solver::ParticleSwarm;
use crate::particleswarm::standing;
use crate::particleswarm::standing::StandingView;
use crate::particleswarm::strategy::MutationApplication;
use crate::problem;
use crate::problem::CostFunction;
use crate::random::{NoiseSource, RangeSource};
use vstd::prelude::*;

verus! {

/// An iteration neither adds nor loses particles. It worsens neither the best cost of the swarm nor
/// that of a particle. If no particle has found a better position than the swarm before, then none
/// has afterwards.
pub proof fn law_iteration_never_worsens<
    O: CostFunction<P, F>,
    P: Position<F>,
    F: ArgminFloat,
    R: RangeSource<F> + NoiseSource<F::Wide>,
>(
    problem: O,
    swarm: ParticleSwarm<P, F, R>,
    iter: u64,
    before: StandingView<P::V, F>,
    after: StandingView<P::V, F>,
    rest: Map<nat, u64>,
)
    requires
        before.particles.len() <= usize::MAX,
        iteration::is_iteration::<O, P, F, R>(problem, swarm, iter, before, after, rest),
    ensures
        after.particles.len() == before.particles.len(),
        standing::is_no_worse(after.best_cost, before.best_cost),
        standing::keeps_bests(before.particles, after.particles),
        standing::leads(before) ==> standing::leads(after),
{
    let (moved, costs) = choose|moved: Seq<ParticleView<P::V, F>>, costs: Seq<F>| #[trigger]
        iteration::is_step::<O, P, F, R>(problem, swarm, iter, before, after, rest, moved, costs);
    let words = iteration::words_after_moves(
        swarm,
        iteration::weights_at(swarm, iter),
        before.best.position,
        before.particles,
        before.particles.len(),
    );
    let start = StandingView { particles: moved, ..before };
    let learned = standing::recorded(start, costs, costs.len());
    assert forall|i: int| 0 <= i < moved.len() implies (#[trigger] moved[i]).best_cost
        == before.particles[i].best_cost by {
        lemma_moved_keeps_best(
            swarm,
            iteration::weights_at(swarm, iter),
            before.best.position,
            before.particles[i],
            moved[i],
        );
    }
    standing::law_recorded(start, costs, costs.len());
    lemma_mutated_never_worsens::<O, P, F, R>(problem, swarm, learned, after, words);
    F::order_laws(after.best_cost, learned.best_cost, before.best_cost);
    assert forall|i: int| 0 <= i < after.particles.len() implies standing::is_no_worse(
        (#[trigger] after.particles[i]).best_cost,
        before.particles[i].best_cost,
    ) by {
        F::order_laws(
            after.particles[i].best_cost,
            learned.particles[i].best_cost,
            before.particles[i].best_cost,
        );
    }
}

proof fn lemma_moved_keeps_best<P: Position<F>, F: ArgminFloat, R>(
    swarm: ParticleSwarm<P, F, R>,
    weights: motion::Weights<F>,
    best: P::V,
    p: ParticleView<P::V, F>,
    q: ParticleView<P::V, F>,
)
    requires
        motion::is_moved(swarm, weights, best, p, q),
    ensures
        q.best_cost == p.best_cost,
        q.best_position == p.best_position,
{
    let (a, b, c) = choose|a: P::V, b: P::V, c: P::V| #[trigger]
        motion::is_pulled(swarm, weights, best, p, q, a, b, c);
}

/// The particles that are offered mutated positions are particles.
proof fn lemma_chosen<V, F: Real>(
    s: StandingView<V, F>,
    application: MutationApplication,
)
    requires
        s.particles.len() <= usize::MAX,
    ensures
        forall|j: int|
            0 <= j < iteration::chosen(s, application).len() ==> #[trigger] iteration::chosen(
                s,
                application,
            )[j] < s.particles.len(),
{
    standing::lemma_above(
        s.particles,
        standing::average_cost(s.particles),
        s.particles.len(),
    );
}

proof fn lemma_mutated_never_worsens<
    O: CostFunction<P, F>,
    P: Position<F>,
    F: ArgminFloat,
    R: NoiseSource<F::Wide>,
>(
    problem: O,
    swarm: ParticleSwarm<P, F, R>,
    before: StandingView<P::V, F>,
    after: StandingView<P::V, F>,
    words: Map<nat, u64>,
)
    requires
        before.particles.len() <= usize::MAX,
        iteration::is_mutated::<O, P, F, R>(problem, swarm, before, after, words),
    ensures
        standing::is_no_worse(after.best_cost, before.best_cost),
        standing::keeps_bests(before.particles, after.particles),
        standing::leads(before) ==> standing::leads(after),
{
    if iteration::mutates(swarm) {
        if swarm.mutation_application is GlobalBestOnly {
            let (position, cost) = choose|position: P::V, cost: F| #[trigger]
                iteration::is_best_offer::<O, P, F, R>(
                    problem,
                    swarm,
                    before,
                    after,
                    position,
                    cost,
                    words,
                );
            if standing::leads(before) {
                assert forall|i: int| 0 <= i < after.particles.len() implies !(
                #[trigger] after.particles[i]).best_cost.spec_less(after.best_cost) by {
                    F::order_laws(before.particles[i].best_cost, cost, before.best_cost);
                }
            }
        } else {
            let (positions, costs) = choose|positions: Seq<P::V>, costs: Seq<F>| #[trigger]
                iteration::is_offer::<O, P, F, R>(
                    problem,
                    swarm,
                    before,
                    after,
                    positions,
                    costs,
                    words,
                );
            let indices = iteration::chosen(before, swarm.mutation_application);
            lemma_chosen(before, swarm.mutation_application);
            standing::law_offered(before, indices, positions, costs, indices.len());
        }
    }
}

/// After an iteration, the best cost of every particle is the lesser of its cost and of what its best
/// cost was, and its best position is the one with that cost.
pub proof fn law_iteration_knows_bests<
    O: CostFunction<P, F>,
    P: Position<F>,
    F: ArgminFloat,
    R: RangeSource<F> + NoiseSource<F::Wide>,
>(
    problem: O,
    swarm: ParticleSwarm<P, F, R>,
    iter: u64,
    before: StandingView<P::V, F>,
    after: StandingView<P::V, F>,
    rest: Map<nat, u64>,
)
    requires
        before.particles.len() <= usize::MAX,
        iteration::is_iteration::<O, P, F, R>(problem, swarm, iter, before, after, rest),
    ensures
        standing::know_bests(before.particles, after.particles),
{
    let (moved, costs) = choose|moved: Seq<ParticleView<P::V, F>>, costs: Seq<F>| #[trigger]
        iteration::is_step::<O, P, F, R>(problem, swarm, iter, before, after, rest, moved, costs);
    let start = StandingView { particles: moved, ..before };
    let known = iteration::learned(before, moved, costs);
    assert forall|i: int| 0 <= i < moved.len() implies (#[trigger] moved[i]).best_cost
        == before.particles[i].best_cost && moved[i].best_position
        == before.particles[i].best_position by {
        lemma_moved_keeps_best(
            swarm,
            iteration::weights_at(swarm, iter),
            before.best.position,
            before.particles[i],
            moved[i],
        );
    }
    standing::law_recorded_bests(start, costs);
    assert(standing::know_bests(before.particles, known.particles));
    if iteration::mutates(swarm) && !(swarm.mutation_application is GlobalBestOnly) {
        let words = iteration::words_after_all_moves(swarm, iter, before);
        let (positions, others) = choose|positions: Seq<P::V>, others: Seq<F>| #[trigger]
            iteration::is_offer::<O, P, F, R>(
                problem,
                swarm,
                known,
                after,
                positions,
                others,
                words,
            );
        let indices = iteration::chosen(known, swarm.mutation_application);
        lemma_chosen(known, swarm.mutation_application);
        standing::law_offered_bests(
            before.particles,
            known,
            indices,
            positions,
            others,
            indices.len(),
        );
    }
}

/// Whether `others` are costs that the problem may give for the positions that are offered by
/// mutation in iteration `iter`, after the particles have moved to `moved` and learned `costs`.
pub open spec fn are_mutation_costs<
    O: CostFunction<P, F>,
    P: Position<F>,
    F: ArgminFloat,
    R: RangeSource<F> + NoiseSource<F::Wide>,
>(
    problem: O,
    swarm: ParticleSwarm<P, F, R>,
    iter: u64,
    before: StandingView<P::V, F>,
    moved: Seq<ParticleView<P::V, F>>,
    costs: Seq<F>,
    positions: Seq<P::V>,
    others: Seq<F>,
) -> bool {
    &&& problem::are_costs::<O, P, F>(problem, positions, others)
    &&& if iteration::mutates(swarm) {
        iteration::are_offered(
            swarm,
            iteration::learned(before, moved, costs),
            iteration::words_after_all_moves(swarm, iter, before),
            positions,
        )
    } else {
        positions.len() == 0
    }
}

/// In an iteration the best cost of the swarm becomes the least of what it was and of all the costs
/// that the problem answers, and stays the cost of the best particle, where the costs are numbers.
pub proof fn law_iteration_finds_least<
    O: CostFunction<P, F>,
    P: Position<F>,
    F: ArgminFloat,
    R: RangeSource<F> + NoiseSource<F::Wide>,
>(
    problem: O,
    swarm: ParticleSwarm<P, F, R>,
    iter: u64,
    before: StandingView<P::V, F>,
    after: StandingView<P::V, F>,
    rest: Map<nat, u64>,
    moved: Seq<ParticleView<P::V, F>>,
    costs: Seq<F>,
)
    requires
        before.particles.len() <= usize::MAX,
        standing::is_settled(before),
        forall|i: int| 0 <= i < costs.len() ==> float::defined(#[trigger] costs[i]),
        iteration::is_step::<O, P, F, R>(problem, swarm, iter, before, after, rest, moved, costs),
    ensures
        standing::is_settled(after),
        exists|positions: Seq<P::V>, others: Seq<F>| #[trigger]
            are_mutation_costs::<O, P, F, R>(
                problem,
                swarm,
                iter,
                before,
                moved,
                costs,
                positions,
                others,
            ) && standing::is_least(after.best_cost, before.best_cost, costs + others),
{
    let start = StandingView { particles: moved, ..before };
    let known = iteration::learned(before, moved, costs);
    assert forall|i: int| 0 <= i < moved.len() implies (#[trigger] moved[i]).best_cost
        == before.particles[i].best_cost by {
        lemma_moved_keeps_best(
            swarm,
            iteration::weights_at(swarm, iter),
            before.best.position,
            before.particles[i],
            moved[i],
        );
    }
    assert(standing::is_settled(start));
    standing::law_recorded_is_least(start, costs, costs.len());
    standing::law_recorded_bests(start, costs);
    assert(costs.take(costs.len() as int) =~= costs);
    assert forall|i: int| 0 <= i < known.particles.len() implies float::defined(
        (#[trigger] known.particles[i]).cost,
    ) && !known.particles[i].cost.spec_less(known.particles[i].best_cost) by {
        F::order_laws(costs[i], costs[i], costs[i]);
    }
    let words = iteration::words_after_all_moves(swarm, iter, before);
    if !iteration::mutates(swarm) {
        let nowhere = Seq::<P::V>::empty();
        let none = Seq::<F>::empty();
        assert(costs + none =~= costs);
        assert(are_mutation_costs::<O, P, F, R>(
            problem,
            swarm,
            iter,
            before,
            moved,
            costs,
            nowhere,
            none,
        ));
    } else if swarm.mutation_application is GlobalBestOnly {
        let (position, cost) = choose|position: P::V, cost: F| #[trigger]
            iteration::is_best_offer::<O, P, F, R>(
                problem,
                swarm,
                known,
                after,
                position,
                cost,
                words,
            );
        let (positions, others) = (seq![position], seq![cost]);
        F::order_laws(cost, known.best_cost, cost);
        F::order_laws(cost, cost, cost);
        assert(standing::is_least(after.best_cost, known.best_cost, others)) by {
            assert(others[0] == cost);
            F::order_laws(known.best_cost, cost, known.best_cost);
            F::order_laws(known.best_cost, known.best_cost, known.best_cost);
        }
        assert forall|i: int| 0 <= i < after.particles.len() implies !(
        #[trigger] after.particles[i]).best_cost.spec_less(after.best_cost) by {
            F::order_laws(known.particles[i].best_cost, cost, known.best_cost);
        }
        lemma_least_of_both(before.best_cost, known.best_cost, after.best_cost, costs, others);
        assert(are_mutation_costs::<O, P, F, R>(
            problem,
            swarm,
            iter,
            before,
            moved,
            costs,
            positions,
            others,
        ));
    } else {
        let (positions, others) = choose|positions: Seq<P::V>, others: Seq<F>| #[trigger]
            iteration::is_offer::<O, P, F, R>(
                problem,
                swarm,
                known,
                after,
                positions,
                others,
                words,
            );
        let indices = iteration::chosen(known, swarm.mutation_application);
        lemma_chosen(known, swarm.mutation_application);
        standing::law_offered_is_least(known, indices, positions, others, indices.len());
        assert(others.take(indices.len() as int) =~= others);
        lemma_least_of_both(before.best_cost, known.best_cost, after.best_cost, costs, others);
        assert(are_mutation_costs::<O, P, F, R>(
            problem,
            swarm,
            iter,
            before,
            moved,
            costs,
            positions,
            others,
        ));
    }
}

/// The least of the least so far and of other costs is the least of them all.
proof fn lemma_least_of_both<F: Real>(old: F, between: F, r: F, costs: Seq<F>, others: Seq<F>)
    requires
        standing::is_least(between, old, costs),
        standing::is_least(r, between, others),
        float::defined(between),
    ensures
        standing::is_least(r, old, costs + others),
{
    let all = costs + others;
    if r == between {
        if r != old {
            let i = choose|i: int| 0 <= i < costs.len() && costs[i] == r;
            assert(all[i] == r);
        }
    } else {
        let i = choose|i: int| 0 <= i < others.len() && others[i] == r;
        assert(all[costs.len() + i] == r);
    }
    F::order_laws(old, r, between);
    F::order_laws(r, between, r);
    assert forall|i: int| 0 <= i < all.len() implies !(#[trigger] all[i]).spec_less(r) by {
        if i < costs.len() {
            assert(!costs[i].spec_less(between));
            F::order_laws(costs[i], r, between);
        } else {
            assert(!others[i - costs.len()].spec_less(r));
        }
    }
}

/// Whether the best position of the swarm, and the positions and the best positions of all the
/// particles, are inside the bounds.
pub open spec fn is_contained<P: Position<F>, F: ArgminFloat, R>(
    swarm: ParticleSwarm<P, F, R>,
    s: StandingView<P::V, F>,
) -> bool {
    let (low, high) = (swarm.bounds.0@, swarm.bounds.1@);
    &&& P::is_inside(low, s.best.position, high)
    &&& forall|i: int|
        0 <= i < s.particles.len() ==> is_particle_contained(swarm, #[trigger] s.particles[i])
}

/// Whether the position and the best position of a particle are inside the bounds.
pub open spec fn is_particle_contained<P: Position<F>, F: ArgminFloat, R>(
    swarm: ParticleSwarm<P, F, R>,
    p: ParticleView<P::V, F>,
) -> bool {
    let (low, high) = (swarm.bounds.0@, swarm.bounds.1@);
    &&& P::is_inside(low, p.position, high)
    &&& P::is_inside(low, p.best_position, high)
    &&& P::dimension(p.velocity) == P::dimension(low)
}

/// A swarm that is contained in a box can do an iteration.
pub proof fn law_contained_is_ready<P: Position<F>, F: ArgminFloat, R>(
    swarm: ParticleSwarm<P, F, R>,
    s: StandingView<P::V, F>,
)
    requires
        P::is_box(swarm.bounds.0@, swarm.bounds.1@),
        motion::is_space(swarm),
        iteration::mutates(swarm) ==> mutation::can_mutate(swarm),
        is_contained(swarm, s),
    ensures
        iteration::is_ready(swarm, s.best.position, s.particles),
{
    P::box_laws(swarm.bounds.0@, swarm.bounds.1@, s.best.position, s.best.position);
    assert forall|i: int| 0 <= i < s.particles.len() implies motion::is_movable(
        swarm,
        s.best.position,
        #[trigger] s.particles[i],
    ) by {
        motion::law_inside_is_movable(swarm, s.best.position, s.particles[i]);
    }
}

/// A swarm that is contained in a box is contained in it after an iteration, and can do another.
pub proof fn law_iteration_stays_contained<
    O: CostFunction<P, F>,
    P: Position<F>,
    F: ArgminFloat,
    R: RangeSource<F> + NoiseSource<F::Wide>,
>(
    problem: O,
    swarm: ParticleSwarm<P, F, R>,
    iter: u64,
    before: StandingView<P::V, F>,
    after: StandingView<P::V, F>,
    rest: Map<nat, u64>,
)
    requires
        P::is_box(swarm.bounds.0@, swarm.bounds.1@),
        motion::is_space(swarm),
        iteration::mutates(swarm) ==> mutation::can_mutate(swarm),
        before.particles.len() <= usize::MAX,
        is_contained(swarm, before),
        iteration::is_iteration::<O, P, F, R>(problem, swarm, iter, before, after, rest),
    ensures
        is_contained(swarm, after),
        iteration::is_ready(swarm, after.best.position, after.particles),
{
    let (low, high) = (swarm.bounds.0@, swarm.bounds.1@);
    let weights = iteration::weights_at(swarm, iter);
    let (moved, costs) = choose|moved: Seq<ParticleView<P::V, F>>, costs: Seq<F>| #[trigger]
        iteration::is_step::<O, P, F, R>(problem, swarm, iter, before, after, rest, moved, costs);
    let words = iteration::words_after_moves(
        swarm,
        iteration::weights_at(swarm, iter),
        before.best.position,
        before.particles,
        before.particles.len(),
    );
    P::box_laws(low, high, before.best.position, before.best.position);
    law_contained_is_ready(swarm, before);
    let start = StandingView { particles: moved, ..before };
    assert forall|i: int| 0 <= i < start.particles.len() implies is_particle_contained(
        swarm,
        #[trigger] start.particles[i],
    ) by {
        assert(motion::is_moved(
            swarm,
            weights,
            before.best.position,
            before.particles[i],
            moved[i],
        ));
        motion::law_moved_velocity_is_limited(
            swarm,
            weights,
            before.best.position,
            before.particles[i],
            moved[i],
        );
        motion::law_moved_stays_inside(
            swarm,
            weights,
            before.best.position,
            before.particles[i],
            moved[i],
        );
        lemma_moved_keeps_best(
            swarm,
            weights,
            before.best.position,
            before.particles[i],
            moved[i],
        );
    }
    lemma_recorded_contained(swarm, start, costs, costs.len());
    let learned = standing::recorded(start, costs, costs.len());
    standing::law_recorded(start, costs, costs.len());
    lemma_mutated_contained::<O, P, F, R>(problem, swarm, learned, after, words);
    law_contained_is_ready(swarm, after);
}

proof fn lemma_recorded_contained<P: Position<F>, F: ArgminFloat, R>(
    swarm: ParticleSwarm<P, F, R>,
    s: StandingView<P::V, F>,
    costs: Seq<F>,
    k: nat,
)
    requires
        k <= s.particles.len(),
        is_contained(swarm, s),
    ensures
        is_contained(swarm, standing::recorded(s, costs, k)),
    decreases k,
{
    if k > 0 {
        lemma_recorded_contained(swarm, s, costs, (k - 1) as nat);
        standing::law_recorded(s, costs, (k - 1) as nat);
    }
}

proof fn lemma_offered_contained<P: Position<F>, F: ArgminFloat, R>(
    swarm: ParticleSwarm<P, F, R>,
    s: StandingView<P::V, F>,
    indices: Seq<usize>,
    positions: Seq<P::V>,
    costs: Seq<F>,
    k: nat,
)
    requires
        k <= indices.len(),
        positions.len() == indices.len(),
        forall|j: int| 0 <= j < indices.len() ==> #[trigger] indices[j] < s.particles.len(),
        is_contained(swarm, s),
        forall|j: int|
            0 <= j < positions.len() ==> P::is_inside(
                swarm.bounds.0@,
                #[trigger] positions[j],
                swarm.bounds.1@,
            ),
    ensures
        is_contained(swarm, standing::offered(s, indices, positions, costs, k)),
    decreases k,
{
    if k > 0 {
        lemma_offered_contained(swarm, s, indices, positions, costs, (k - 1) as nat);
        standing::law_offered(s, indices, positions, costs, (k - 1) as nat);
    }
}

proof fn lemma_mutated_contained<O: CostFunction<P, F>, P: Position<F>, F: ArgminFloat, R: NoiseSource<F::Wide>>(
    problem: O,
    swarm: ParticleSwarm<P, F, R>,
    before: StandingView<P::V, F>,
    after: StandingView<P::V, F>,
    words: Map<nat, u64>,
)
    requires
        P::is_box(swarm.bounds.0@, swarm.bounds.1@),
        before.particles.len() <= usize::MAX,
        is_contained(swarm, before),
        iteration::is_mutated::<O, P, F, R>(problem, swarm, before, after, words),
    ensures
        is_contained(swarm, after),
{
    let (low, high) = (swarm.bounds.0@, swarm.bounds.1@);
    P::box_laws(low, high, before.best.position, before.best.position);
    if iteration::mutates(swarm) {
        if swarm.mutation_application is GlobalBestOnly {
            let (position, cost) = choose|position: P::V, cost: F| #[trigger]
                iteration::is_best_offer::<O, P, F, R>(
                    problem,
                    swarm,
                    before,
                    after,
                    position,
                    cost,
                    words,
                );
            mutation::law_mutation_stays_inside(swarm, before.best.position, position);
        } else {
            let (positions, costs) = choose|positions: Seq<P::V>, costs: Seq<F>| #[trigger]
                iteration::is_offer::<O, P, F, R>(
                    problem,
                    swarm,
                    before,
                    after,
                    positions,
                    costs,
                    words,
                );
            let indices = iteration::chosen(before, swarm.mutation_application);
            lemma_chosen(before, swarm.mutation_application);
            assert forall|j: int| 0 <= j < positions.len() implies P::is_inside(
                low,
                #[trigger] positions[j],
                high,
            ) by {
                let p = before.particles[indices[j] as int];
                P::box_laws(low, high, p.position, p.position);
                mutation::law_mutation_stays_inside(swarm, p.position, positions[j]);
            }
            lemma_offered_contained(swarm, before, indices, positions, costs, indices.len());
        }
    }
}

/// After an iteration, the velocities of all the particles are between the limits.
pub proof fn law_iteration_limits_velocities<
    O: CostFunction<P, F>,
    P: Position<F>,
    F: ArgminFloat,
    R: RangeSource<F> + NoiseSource<F::Wide>,
>(
    problem: O,
    swarm: ParticleSwarm<P, F, R>,
    iter: u64,
    before: StandingView<P::V, F>,
    after: StandingView<P::V, F>,
    rest: Map<nat, u64>,
)
    requires
        before.particles.len() <= usize::MAX,
        iteration::is_ready(swarm, before.best.position, before.particles),
        iteration::is_iteration::<O, P, F, R>(problem, swarm, iter, before, after, rest),
    ensures
        after.particles.len() == before.particles.len(),
        forall|i: int|
            0 <= i < after.particles.len() ==> motion::is_limited::<P, F>(
                (#[trigger] after.particles[i]).velocity,
                swarm.velocity_clamp_factor,
                swarm.bounds.0@,
                swarm.bounds.1@,
            ),
{
    let weights = iteration::weights_at(swarm, iter);
    let (moved, costs) = choose|moved: Seq<ParticleView<P::V, F>>, costs: Seq<F>| #[trigger]
        iteration::is_step::<O, P, F, R>(problem, swarm, iter, before, after, rest, moved, costs);
    let words = iteration::words_after_moves(
        swarm,
        iteration::weights_at(swarm, iter),
        before.best.position,
        before.particles,
        before.particles.len(),
    );
    let start = StandingView { particles: moved, ..before };
    let learned = standing::recorded(start, costs, costs.len());
    lemma_recorded_keeps_velocities(start, costs, costs.len());
    lemma_mutated_keeps_velocities::<O, P, F, R>(problem, swarm, learned, after, words);
    assert forall|i: int| 0 <= i < after.particles.len() implies motion::is_limited::<P, F>(
        (#[trigger] after.particles[i]).velocity,
        swarm.velocity_clamp_factor,
        swarm.bounds.0@,
        swarm.bounds.1@,
    ) by {
        assert(motion::is_moved(
            swarm,
            weights,
            before.best.position,
            before.particles[i],
            moved[i],
        ));
        motion::law_moved_velocity_is_limited(
            swarm,
            weights,
            before.best.position,
            before.particles[i],
            moved[i],
        );
    }
}

/// Whether two swarms have the same velocities.
spec fn same_velocities<V, F>(
    before: Seq<ParticleView<V, F>>,
    after: Seq<ParticleView<V, F>>,
) -> bool {
    &&& after.len() == before.len()
    &&& forall|i: int|
        0 <= i < after.len() ==> (#[trigger] after[i]).velocity == before[i].velocity
}

proof fn lemma_recorded_keeps_velocities<V, F: Real>(
    s: StandingView<V, F>,
    costs: Seq<F>,
    k: nat,
)
    requires
        k <= s.particles.len(),
    ensures
        same_velocities(s.particles, standing::recorded(s, costs, k).particles),
    decreases k,
{
    if k > 0 {
        lemma_recorded_keeps_velocities(s, costs, (k - 1) as nat);
    }
}

proof fn lemma_offered_keeps_velocities<V, F: Real>(
    s: StandingView<V, F>,
    indices: Seq<usize>,
    positions: Seq<V>,
    costs: Seq<F>,
    k: nat,
)
    requires
        k <= indices.len(),
        forall|j: int| 0 <= j < indices.len() ==> #[trigger] indices[j] < s.particles.len(),
    ensures
        same_velocities(
            s.particles,
            standing::offered(s, indices, positions, costs, k).particles,
        ),
    decreases k,
{
    if k > 0 {
        lemma_offered_keeps_velocities(s, indices, positions, costs, (k - 1) as nat);
    }
}

proof fn lemma_mutated_keeps_velocities<
    O: CostFunction<P, F>,
    P: Position<F>,
    F: ArgminFloat,
    R: NoiseSource<F::Wide>,
>(
    problem: O,
    swarm: ParticleSwarm<P, F, R>,
    before: StandingView<P::V, F>,
    after: StandingView<P::V, F>,
    words: Map<nat, u64>,
)
    requires
        before.particles.len() <= usize::MAX,
        iteration::is_mutated::<O, P, F, R>(problem, swarm, before, after, words),
    ensures
        same_velocities(before.particles, after.particles),
{
    if iteration::mutates(swarm) {
        if swarm.mutation_application is GlobalBestOnly {
            let (position, cost) = choose|position: P::V, cost: F| #[trigger]
                iteration::is_best_offer::<O, P, F, R>(
                    problem,
                    swarm,
                    before,
                    after,
                    position,
                    cost,
                    words,
                );
        } else {
            let (positions, costs) = choose|positions: Seq<P::V>, costs: Seq<F>| #[trigger]
                iteration::is_offer::<O, P, F, R>(
                    problem,
                    swarm,
                    before,
                    after,
                    positions,
                    costs,
                    words,
                );
            let indices = iteration::chosen(before, swarm.mutation_application);
            lemma_chosen(before, swarm.mutation_application);
            lemma_offered_keeps_velocities(before, indices, positions, costs, indices.len());
        }
    }
}

/// New particles are in order of their costs, where these are numbers, and no particle has found a
/// better position than the first one.
pub proof fn law_first_particle_leads<V, F: Real>(
    positions: Seq<V>,
    velocities: Seq<V>,
    costs: Seq<F>,
)
    requires
        positions.len() > 0,
        positions.len() == velocities.len(),
        positions.len() == costs.len(),
        forall|i: int| 0 <= i < costs.len() ==> float::defined(#[trigger] costs[i]),
    ensures
        initialization::assembled(positions, velocities, costs).len() == positions.len(),
        forall|i: int, j: int|
            0 <= i < j < positions.len() ==> float::at_most(
                (#[trigger] initialization::assembled(positions, velocities, costs)[i]).cost,
                (#[trigger] initialization::assembled(positions, velocities, costs)[j]).cost,
            ),
        ({
            let particles = initialization::assembled(positions, velocities, costs);
            standing::leads(
                StandingView { particles, best: particles[0], best_cost: particles[0].cost },
            )
        }),
{
    let before = particle::by_cost::<V, F>();
    let s = Seq::new(
        positions.len(),
        |i: int| particle::new_particle(positions[i], costs[i], velocities[i]),
    );
    let r = initialization::assembled(positions, velocities, costs);
    assert(ordering::is_ordered_by(before, s)) by {
        assert forall|a: ParticleView<V, F>| s.contains(a) implies !#[trigger] before(a, a) by {
            F::order_laws(a.cost, a.cost, a.cost);
        }
        assert forall|a: ParticleView<V, F>, b: ParticleView<V, F>, c: ParticleView<V, F>|
            s.contains(a) && s.contains(b) && s.contains(c) && #[trigger] before(a, b)
                && #[trigger] before(b, c) implies before(a, c) by {
            F::order_laws(a.cost, b.cost, c.cost);
        }
        assert forall|a: ParticleView<V, F>, b: ParticleView<V, F>, c: ParticleView<V, F>|
            s.contains(a) && s.contains(b) && s.contains(c) && #[trigger] before(a, c)
                && !before(a, b) implies #[trigger] before(b, c) by {
            F::order_laws(b.cost, a.cost, c.cost);
        }
    }
    ordering::law_sorted_in_order(before, s);
    ordering::law_sorted_is_permutation(before, s);
    assert forall|i: int| 0 <= i < r.len() implies float::defined((#[trigger] r[i]).cost)
        && r[i].best_cost == r[i].cost by {
        assert(r.contains(r[i]));
    }
    assert forall|i: int, j: int| 0 <= i < j < positions.len() implies float::at_most(
        (#[trigger] r[i]).cost,
        (#[trigger] r[j]).cost,
    ) by {
        F::order_laws(r[i].cost, r[j].cost, r[i].cost);
    }
    assert forall|i: int| 0 <= i < r.len() implies !(#[trigger] r[i]).best_cost.spec_less(
        r[0].cost,
    ) by {
        F::order_laws(r[i].cost, r[i].cost, r[i].cost);
    }
}

/// Particles that start at random positions start inside the bounds if these are in order.
pub proof fn law_random_start_is_inside<P: Position<F>, F: ArgminFloat, R: RangeSource<F>>(
    swarm: ParticleSwarm<P, F, R>,
    positions: Seq<P::V>,
    i: int,
)
    requires
        P::is_inside(swarm.bounds.0@, swarm.bounds.0@, swarm.bounds.1@),
        !(swarm.initialization_strategy is LatinHypercube),
        initialization::are_starts(swarm, positions),
        0 <= i < positions.len(),
    ensures
        P::is_inside(swarm.bounds.0@, positions[i], swarm.bounds.1@),
{
    P::draw_laws(swarm.bounds.0@, swarm.bounds.1@, positions[i]);
}

/// A swarm whose particles start at random positions in a box is contained in it from the start.
pub proof fn law_first_swarm_is_contained<
    O: CostFunction<P, F>,
    P: Position<F>,
    F: ArgminFloat,
    R: RangeSource<F>,
>(problem: O, swarm: ParticleSwarm<P, F, R>, particles: Seq<ParticleView<P::V, F>>)
    requires
        P::is_box(swarm.bounds.0@, swarm.bounds.1@),
        swarm.initialization_strategy is UniformRandom,
        swarm.num_particles > 0,
        initialization::is_first_swarm::<O, P, F, R>(problem, swarm, particles),
    ensures
        particles.len() == swarm.num_particles,
        is_contained(
            swarm,
            StandingView { particles, best: particles[0], best_cost: particles[0].cost },
        ),
{
    let (low, high) = (swarm.bounds.0@, swarm.bounds.1@);
    let (positions, velocities, costs) = choose|
        positions: Seq<P::V>,
        velocities: Seq<P::V>,
        costs: Seq<F>,
    | #[trigger]
        initialization::is_assembly::<O, P, F, R>(
            problem,
            swarm,
            positions,
            velocities,
            costs,
            particles,
        );
    let made = Seq::new(
        positions.len(),
        |i: int| particle::new_particle(positions[i], costs[i], velocities[i]),
    );
    ordering::law_sorted_is_permutation(particle::by_cost::<P::V, F>(), made);
    P::box_laws(low, high, low, low);
    let (forth, back) = (
        motion::extent::<P, F>(low, high),
        motion::extent_backwards::<P, F>(low, high),
    );
    P::dimension_laws(high, low, float::minus_one());
    P::dimension_laws(forth, forth, float::minus_one());
    assert forall|i: int| 0 <= i < particles.len() implies is_particle_contained(
        swarm,
        #[trigger] particles[i],
    ) by {
        assert(particles.contains(particles[i]));
        let k = choose|k: int| 0 <= k < made.len() && made[k] == particles[i];
        law_random_start_is_inside(swarm, positions, k);
        P::draw_laws(back, forth, velocities[k]);
    }
}

} // verus!
