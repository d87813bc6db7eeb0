//! What is known of the swarm: where the particles are, and the best position so far.

use crate::float;
use crate::float::{ArgminFloat, Real};
use crate::particleswarm::particle;
use crate::particleswarm::particle::{Particle, ParticleView};
use crate::particleswarm::position::Position;
use vstd::prelude::*;

verus! {

/// The particles of a swarm and the best position that any of them has been at.
pub struct Standing<P, F> {
    /// The particles.
    pub particles: Vec<Particle<P, F>>,
    /// A particle at the best position.
    pub best: Particle<P, F>,
    /// The cost of the best position.
    pub best_cost: F,
}

/// The abstract value of a standing.
#[verifier::ext_equal]
pub struct StandingView<V, F> {
    /// The particles.
    pub particles: Seq<ParticleView<V, F>>,
    /// A particle at the best position.
    pub best: ParticleView<V, F>,
    /// The cost of the best position.
    pub best_cost: F,
}

impl<P: View, F> View for Standing<P, F> {
    type V = StandingView<P::V, F>;

    open spec fn view(&self) -> StandingView<P::V, F> {
        StandingView {
            particles: particle::views(self.particles@),
            best: self.best@,
            best_cost: self.best_cost,
        }
    }
}

/// A particle whose best position is `position`, where its cost is `cost`.
pub open spec fn with_best<V, F>(
    p: ParticleView<V, F>,
    position: V,
    cost: F,
) -> ParticleView<V, F> {
    ParticleView { best_position: position, best_cost: cost, ..p }
}

/// A particle at `position`, which is its best, and where its cost is `cost`.
pub open spec fn placed<V, F>(p: ParticleView<V, F>, position: V, cost: F) -> ParticleView<V, F> {
    ParticleView { position, cost, best_position: position, best_cost: cost, ..p }
}

/// The standing after a position with the given cost has been found.
pub open spec fn with_found<V, F: Real>(
    s: StandingView<V, F>,
    position: V,
    cost: F,
) -> StandingView<V, F> {
    if cost.spec_less(s.best_cost) {
        StandingView { best: placed(s.best, position, cost), best_cost: cost, ..s }
    } else {
        s
    }
}

/// The standing after particle `i` has learned the cost of its position.
pub open spec fn with_cost<V, F: Real>(
    s: StandingView<V, F>,
    i: int,
    cost: F,
) -> StandingView<V, F> {
    let p = ParticleView { cost, ..s.particles[i] };
    if cost.spec_less(p.best_cost) {
        with_found(
            StandingView {
                particles: s.particles.update(i, with_best(p, p.position, cost)),
                ..s
            },
            p.position,
            cost,
        )
    } else {
        StandingView { particles: s.particles.update(i, p), ..s }
    }
}

/// The standing after the first `k` particles have learned the costs of their positions.
pub open spec fn recorded<V, F: Real>(
    s: StandingView<V, F>,
    costs: Seq<F>,
    k: nat,
) -> StandingView<V, F>
    decreases k,
{
    if k == 0 {
        s
    } else {
        with_cost(recorded(s, costs, (k - 1) as nat), k - 1, costs[k - 1])
    }
}

/// The standing after particle `i` has been offered a mutated position, which it takes if that
/// costs less than its position.
pub open spec fn with_mutation<V, F: Real>(
    s: StandingView<V, F>,
    i: int,
    position: V,
    cost: F,
) -> StandingView<V, F> {
    let p = s.particles[i];
    if cost.spec_less(p.cost) {
        let q = ParticleView { position, cost, ..p };
        with_found(
            StandingView {
                particles: s.particles.update(
                    i,
                    if cost.spec_less(p.best_cost) {
                        with_best(q, position, cost)
                    } else {
                        q
                    },
                ),
                ..s
            },
            position,
            cost,
        )
    } else {
        s
    }
}

/// The standing after the first `k` of some particles have been offered mutated positions.
pub open spec fn offered<V, F: Real>(
    s: StandingView<V, F>,
    indices: Seq<usize>,
    positions: Seq<V>,
    costs: Seq<F>,
    k: nat,
) -> StandingView<V, F>
    decreases k,
{
    if k == 0 {
        s
    } else {
        with_mutation(
            offered(s, indices, positions, costs, (k - 1) as nat),
            indices[k - 1] as int,
            positions[k - 1],
            costs[k - 1],
        )
    }
}

/// The sum of the costs of the first `k` particles.
pub open spec fn total_cost<V, F: Real>(particles: Seq<ParticleView<V, F>>, k: nat) -> F
    decreases k,
{
    if k == 0 {
        float::zero()
    } else {
        total_cost(particles, (k - 1) as nat).spec_plus(particles[k - 1].cost)
    }
}

/// The average cost of the particles.
pub open spec fn average_cost<V, F: Real>(particles: Seq<ParticleView<V, F>>) -> F {
    total_cost(particles, particles.len()).spec_over(F::spec_from_u64(particles.len() as u64))
}

/// Which of the first `k` particles cost more than `average`.
pub open spec fn above<V, F: Real>(
    particles: Seq<ParticleView<V, F>>,
    average: F,
    k: nat,
) -> Seq<usize>
    decreases k,
{
    if k == 0 {
        Seq::empty()
    } else if average.spec_less(particles[k - 1].cost) {
        above(particles, average, (k - 1) as nat).push((k - 1) as usize)
    } else {
        above(particles, average, (k - 1) as nat)
    }
}

/// All the particles.
pub open spec fn everyone(n: nat) -> Seq<usize> {
    Seq::new(n, |i: int| i as usize)
}

/// The positions of some particles.
pub open spec fn positions_of<V, F>(particles: Seq<ParticleView<V, F>>) -> Seq<V> {
    particles.map_values(|p: ParticleView<V, F>| p.position)
}

/// Whether a cost is what it was or less.
pub open spec fn is_no_worse<F: Real>(new: F, old: F) -> bool {
    new == old || new.spec_less(old)
}

/// Whether a particle has found nothing worse than before: its best cost is what it was or less.
pub open spec fn keeps_bests<V, F: Real>(
    old: Seq<ParticleView<V, F>>,
    new: Seq<ParticleView<V, F>>,
) -> bool {
    &&& new.len() == old.len()
    &&& forall|i: int|
        0 <= i < new.len() ==> is_no_worse((#[trigger] new[i]).best_cost, old[i].best_cost)
}

/// Whether no particle has found a position that costs less than the best position of the swarm.
pub open spec fn leads<V, F: Real>(s: StandingView<V, F>) -> bool {
    forall|i: int|
        0 <= i < s.particles.len() ==> !(#[trigger] s.particles[i]).best_cost.spec_less(s.best_cost)
}

proof fn lemma_no_worse<F: Real>(a: F, b: F, c: F)
    requires
        is_no_worse(a, b),
        is_no_worse(b, c),
    ensures
        is_no_worse(a, c),
{
    F::order_laws(a, b, c);
}

/// Learning the cost of a position worsens no best cost, and leaves the best position of the swarm
/// in the lead.
pub proof fn law_with_cost<V, F: Real>(s: StandingView<V, F>, i: int, cost: F)
    requires
        0 <= i < s.particles.len(),
    ensures
        is_no_worse(with_cost(s, i, cost).best_cost, s.best_cost),
        keeps_bests(s.particles, with_cost(s, i, cost).particles),
        leads(s) ==> leads(with_cost(s, i, cost)),
        with_cost(s, i, cost).particles[i].position == s.particles[i].position,
{
    let r = with_cost(s, i, cost);
    if leads(s) {
        assert forall|j: int| 0 <= j < r.particles.len() implies !(#[trigger] r.particles[j]).best_cost.spec_less(
            r.best_cost,
        ) by {
            F::order_laws(cost, s.best_cost, cost);
            F::order_laws(s.particles[j].best_cost, cost, s.best_cost);
        }
    }
}

/// Offering a mutated position worsens no best cost, and leaves the best position of the swarm in
/// the lead.
pub proof fn law_with_mutation<V, F: Real>(s: StandingView<V, F>, i: int, position: V, cost: F)
    requires
        0 <= i < s.particles.len(),
    ensures
        is_no_worse(with_mutation(s, i, position, cost).best_cost, s.best_cost),
        keeps_bests(s.particles, with_mutation(s, i, position, cost).particles),
        leads(s) ==> leads(with_mutation(s, i, position, cost)),
{
    let r = with_mutation(s, i, position, cost);
    if leads(s) {
        assert forall|j: int| 0 <= j < r.particles.len() implies !(#[trigger] r.particles[j]).best_cost.spec_less(
            r.best_cost,
        ) by {
            F::order_laws(cost, s.best_cost, cost);
            F::order_laws(s.particles[j].best_cost, cost, s.best_cost);
        }
    }
}

/// Learning the costs of positions worsens no best cost, moves no particle, and leaves the best
/// position of the swarm in the lead.
pub proof fn law_recorded<V, F: Real>(s: StandingView<V, F>, costs: Seq<F>, k: nat)
    requires
        k <= s.particles.len(),
    ensures
        is_no_worse(recorded(s, costs, k).best_cost, s.best_cost),
        keeps_bests(s.particles, recorded(s, costs, k).particles),
        leads(s) ==> leads(recorded(s, costs, k)),
        positions_of(recorded(s, costs, k).particles) == positions_of(s.particles),
    decreases k,
{
    if k > 0 {
        let before = recorded(s, costs, (k - 1) as nat);
        let after = recorded(s, costs, k);
        law_recorded(s, costs, (k - 1) as nat);
        law_with_cost(before, k - 1, costs[k - 1]);
        lemma_no_worse(after.best_cost, before.best_cost, s.best_cost);
        assert forall|i: int| 0 <= i < after.particles.len() implies is_no_worse(
            (#[trigger] after.particles[i]).best_cost,
            s.particles[i].best_cost,
        ) by {
            lemma_no_worse(
                after.particles[i].best_cost,
                before.particles[i].best_cost,
                s.particles[i].best_cost,
            );
        }
    }
}

/// The lesser of two costs, and the second unless the first is less.
pub open spec fn lesser<F: Real>(a: F, b: F) -> F {
    if a.spec_less(b) {
        a
    } else {
        b
    }
}

/// Whether particles know their bests: the best cost of each is the lesser of its cost and of what
/// its best cost was, and its best position is the one with that cost.
pub open spec fn know_bests<V, F: Real>(
    old: Seq<ParticleView<V, F>>,
    new: Seq<ParticleView<V, F>>,
) -> bool {
    &&& new.len() == old.len()
    &&& forall|i: int|
        0 <= i < new.len() ==> {
            &&& (#[trigger] new[i]).best_cost == lesser(new[i].cost, old[i].best_cost)
            &&& new[i].best_position == if new[i].cost.spec_less(old[i].best_cost) {
                new[i].position
            } else {
                old[i].best_position
            }
        }
}

/// After all the particles have learned the costs of their positions, these are their costs, and
/// they know their bests.
pub proof fn law_recorded_bests<V, F: Real>(s: StandingView<V, F>, costs: Seq<F>)
    requires
        costs.len() == s.particles.len(),
    ensures
        know_bests(s.particles, recorded(s, costs, costs.len()).particles),
        forall|i: int|
            0 <= i < costs.len() ==> (#[trigger] recorded(
                s,
                costs,
                costs.len(),
            ).particles[i]).cost == costs[i],
{
    lemma_recorded_bests(s, costs, costs.len());
}

proof fn lemma_recorded_bests<V, F: Real>(s: StandingView<V, F>, costs: Seq<F>, k: nat)
    requires
        k <= costs.len(),
        costs.len() == s.particles.len(),
    ensures
        recorded(s, costs, k).particles.len() == s.particles.len(),
        forall|i: int|
            0 <= i < s.particles.len() ==> {
                let p = s.particles[i];
                let q = #[trigger] recorded(s, costs, k).particles[i];
                if i >= k {
                    q == p
                } else {
                    q == ParticleView {
                        cost: costs[i],
                        best_cost: lesser(costs[i], p.best_cost),
                        best_position: if costs[i].spec_less(p.best_cost) {
                            p.position
                        } else {
                            p.best_position
                        },
                        ..p
                    }
                }
            },
    decreases k,
{
    if k > 0 {
        lemma_recorded_bests(s, costs, (k - 1) as nat);
    }
}

/// Particles that know their bests know them after they have been offered mutated positions.
pub proof fn law_offered_bests<V, F: Real>(
    old: Seq<ParticleView<V, F>>,
    s: StandingView<V, F>,
    indices: Seq<usize>,
    positions: Seq<V>,
    costs: Seq<F>,
    k: nat,
)
    requires
        k <= indices.len(),
        forall|i: int| 0 <= i < indices.len() ==> #[trigger] indices[i] < s.particles.len(),
        know_bests(old, s.particles),
    ensures
        know_bests(old, offered(s, indices, positions, costs, k).particles),
    decreases k,
{
    if k > 0 {
        law_offered_bests(old, s, indices, positions, costs, (k - 1) as nat);
        let before = offered(s, indices, positions, costs, (k - 1) as nat);
        let after = offered(s, indices, positions, costs, k);
        let j = indices[k - 1] as int;
        let c = costs[k - 1];
        assert forall|i: int| 0 <= i < after.particles.len() implies {
            &&& (#[trigger] after.particles[i]).best_cost == lesser(
                after.particles[i].cost,
                old[i].best_cost,
            )
            &&& after.particles[i].best_position == if after.particles[i].cost.spec_less(
                old[i].best_cost,
            ) {
                after.particles[i].position
            } else {
                old[i].best_position
            }
        } by {
            let p = before.particles[i];
            F::order_laws(c, p.cost, old[i].best_cost);
        }
    }
}

/// Whether `r` is the least of `old` and some costs: it is one of them, and none of them is less.
pub open spec fn is_least<F: Real>(r: F, old: F, costs: Seq<F>) -> bool {
    &&& r == old || costs.contains(r)
    &&& !old.spec_less(r)
    &&& forall|i: int| 0 <= i < costs.len() ==> !(#[trigger] costs[i]).spec_less(r)
}

/// Whether the best costs of the swarm and of its particles are numbers, no particle has found a
/// position that costs less than the best one of the swarm, and that is where the best particle is.
pub open spec fn is_settled<V, F: Real>(s: StandingView<V, F>) -> bool {
    &&& leads(s)
    &&& float::defined(s.best_cost)
    &&& s.best.cost == s.best_cost
    &&& forall|i: int|
        0 <= i < s.particles.len() ==> float::defined((#[trigger] s.particles[i]).best_cost)
}

/// Whether the costs of the particles are numbers and not less than their best costs.
pub open spec fn has_sound_costs<V, F: Real>(particles: Seq<ParticleView<V, F>>) -> bool {
    forall|i: int|
        0 <= i < particles.len() ==> float::defined((#[trigger] particles[i]).cost)
            && !particles[i].cost.spec_less(particles[i].best_cost)
}

/// After particles have learned the costs of their positions, the best cost of the swarm is the
/// least of what it was and of these costs.
pub proof fn law_recorded_is_least<V, F: Real>(s: StandingView<V, F>, costs: Seq<F>, k: nat)
    requires
        k <= costs.len(),
        costs.len() == s.particles.len(),
        is_settled(s),
    ensures
        is_least(recorded(s, costs, k).best_cost, s.best_cost, costs.take(k as int)),
        is_settled(recorded(s, costs, k)),
    decreases k,
{
    law_recorded(s, costs, k);
    lemma_recorded_bests(s, costs, k);
    if k == 0 {
        F::order_laws(s.best_cost, s.best_cost, s.best_cost);
    } else {
        law_recorded_is_least(s, costs, (k - 1) as nat);
        lemma_recorded_bests(s, costs, (k - 1) as nat);
        let before = recorded(s, costs, (k - 1) as nat);
        let after = recorded(s, costs, k);
        let c = costs[k - 1];
        let p = before.particles[k - 1];
        lemma_least(s.best_cost, before.best_cost, costs.take(k - 1), c);
        F::order_laws(c, before.best_cost, p.best_cost);
        F::order_laws(before.best_cost, p.best_cost, c);
        assert(costs.take(k as int) =~= costs.take(k - 1).push(c));
        assert(after.best_cost == lesser(c, before.best_cost));
        assert forall|i: int| 0 <= i < after.particles.len() implies float::defined(
            (#[trigger] after.particles[i]).best_cost,
        ) by {
            F::order_laws(costs[i], s.particles[i].best_cost, costs[i]);
        }
    }
}

/// Taking the lesser of the least cost so far and of one more gives the least of them all.
proof fn lemma_least<F: Real>(old: F, r: F, costs: Seq<F>, c: F)
    requires
        is_least(r, old, costs),
    ensures
        is_least(lesser(c, r), old, costs.push(c)),
{
    let next = lesser(c, r);
    let more = costs.push(c);
    F::order_laws(c, c, c);
    F::order_laws(old, c, r);
    if next == c {
        assert(more[costs.len() as int] == c);
    } else if r != old {
        let i = choose|i: int| 0 <= i < costs.len() && costs[i] == r;
        assert(more[i] == r);
    }
    assert forall|i: int| 0 <= i < more.len() implies !(#[trigger] more[i]).spec_less(next) by {
        if i < costs.len() {
            assert(!costs[i].spec_less(r));
            F::order_laws(costs[i], c, r);
        }
    }
}

/// After particles have been offered mutated positions, the best cost of the swarm is the least of
/// what it was and of the costs of these positions.
pub proof fn law_offered_is_least<V, F: Real>(
    s: StandingView<V, F>,
    indices: Seq<usize>,
    positions: Seq<V>,
    costs: Seq<F>,
    k: nat,
)
    requires
        k <= indices.len(),
        costs.len() == indices.len(),
        forall|i: int| 0 <= i < indices.len() ==> #[trigger] indices[i] < s.particles.len(),
        is_settled(s),
        has_sound_costs(s.particles),
    ensures
        is_least(
            offered(s, indices, positions, costs, k).best_cost,
            s.best_cost,
            costs.take(k as int),
        ),
        is_settled(offered(s, indices, positions, costs, k)),
        has_sound_costs(offered(s, indices, positions, costs, k).particles),
        offered(s, indices, positions, costs, k).particles.len() == s.particles.len(),
    decreases k,
{
    law_offered(s, indices, positions, costs, k);
    if k == 0 {
        F::order_laws(s.best_cost, s.best_cost, s.best_cost);
    } else {
        law_offered_is_least(s, indices, positions, costs, (k - 1) as nat);
        let before = offered(s, indices, positions, costs, (k - 1) as nat);
        let after = offered(s, indices, positions, costs, k);
        let c = costs[k - 1];
        let p = before.particles[indices[k - 1] as int];
        lemma_least(s.best_cost, before.best_cost, costs.take(k - 1), c);
        F::order_laws(c, before.best_cost, p.best_cost);
        F::order_laws(before.best_cost, p.best_cost, p.cost);
        F::order_laws(p.best_cost, p.cost, c);
        F::order_laws(c, p.cost, c);
        F::order_laws(c, p.best_cost, c);
        assert(costs.take(k as int) =~= costs.take(k - 1).push(c));
        assert(after.best_cost == lesser(c, before.best_cost));
    }
}

/// Offering mutated positions worsens no best cost, and leaves the best position of the swarm in
/// the lead.
pub proof fn law_offered<V, F: Real>(
    s: StandingView<V, F>,
    indices: Seq<usize>,
    positions: Seq<V>,
    costs: Seq<F>,
    k: nat,
)
    requires
        k <= indices.len(),
        forall|i: int| 0 <= i < indices.len() ==> #[trigger] indices[i] < s.particles.len(),
    ensures
        is_no_worse(offered(s, indices, positions, costs, k).best_cost, s.best_cost),
        keeps_bests(s.particles, offered(s, indices, positions, costs, k).particles),
        leads(s) ==> leads(offered(s, indices, positions, costs, k)),
    decreases k,
{
    if k > 0 {
        let before = offered(s, indices, positions, costs, (k - 1) as nat);
        let after = offered(s, indices, positions, costs, k);
        law_offered(s, indices, positions, costs, (k - 1) as nat);
        law_with_mutation(before, indices[k - 1] as int, positions[k - 1], costs[k - 1]);
        lemma_no_worse(after.best_cost, before.best_cost, s.best_cost);
        assert forall|i: int| 0 <= i < after.particles.len() implies is_no_worse(
            (#[trigger] after.particles[i]).best_cost,
            s.particles[i].best_cost,
        ) by {
            lemma_no_worse(
                after.particles[i].best_cost,
                before.particles[i].best_cost,
                s.particles[i].best_cost,
            );
        }
    }
}

/// The particles that cost more than the average are particles.
pub proof fn lemma_above<V, F: Real>(particles: Seq<ParticleView<V, F>>, average: F, k: nat)
    requires
        k <= particles.len() <= usize::MAX,
    ensures
        forall|i: int|
            0 <= i < above(particles, average, k).len() ==> #[trigger] above(
                particles,
                average,
                k,
            )[i] < k,
    decreases k,
{
    if k > 0 {
        lemma_above(particles, average, (k - 1) as nat);
        let before = above(particles, average, (k - 1) as nat);
        let after = above(particles, average, k);
        assert(forall|i: int| 0 <= i < before.len() ==> after[i] == before[i]);
    }
}

impl<P: Position<F>, F: ArgminFloat> Standing<P, F> {
    /// Offers the swarm a position, which becomes the best one if it costs less.
    pub fn offer_best(&mut self, position: &P, cost: F)
        ensures
            final(self)@ == with_found(old(self)@, position@, cost),
            final(self).particles == old(self).particles,
    {
        if cost.less(self.best_cost) {
            self.best.position = position.duplicate();
            self.best.best_position = position.duplicate();
            self.best.cost = cost;
            self.best.best_cost = cost;
            self.best_cost = cost;
        }
    }

    /// Tells the particles the costs of their positions.
    pub fn record(&mut self, costs: &Vec<F>)
        requires
            costs@.len() == old(self).particles@.len(),
        ensures
            final(self)@ == recorded(old(self)@, costs@, costs@.len()),
    {
        let mut k: usize = 0;
        while k < costs.len()
            invariant
                k <= costs@.len(),
                costs@.len() == old(self).particles@.len(),
                self.particles@.len() == old(self).particles@.len(),
                self@ == recorded(old(self)@, costs@, k as nat),
            decreases costs@.len() - k,
        {
            let cost = costs[k];
            let ghost before = self@;
            let position = self.particles[k].position.duplicate();
            self.particles[k].cost = cost;
            if cost.less(self.particles[k].best_cost) {
                self.particles[k].best_position = position.duplicate();
                self.particles[k].best_cost = cost;
                proof {
                    let p = ParticleView { cost, ..before.particles[k as int] };
                    assert(self@.particles =~= before.particles.update(
                        k as int,
                        with_best(p, p.position, cost),
                    ));
                }
                self.offer_best(&position, cost);
            }
            k = k + 1;
        }
    }

    /// Offers particle `i` a mutated position, which it takes if that costs less than its position.
    pub fn offer(&mut self, i: usize, position: &P, cost: F)
        requires
            i < old(self).particles@.len(),
        ensures
            final(self)@ == with_mutation(old(self)@, i as int, position@, cost),
    {
        let ghost before = self@;
        if cost.less(self.particles[i].cost) {
            self.particles[i].position = position.duplicate();
            self.particles[i].cost = cost;
            if cost.less(self.particles[i].best_cost) {
                self.particles[i].best_position = position.duplicate();
                self.particles[i].best_cost = cost;
            }
            proof {
                let p = before.particles[i as int];
                let q = ParticleView { position: position@, cost, ..p };
                assert(self@.particles =~= before.particles.update(
                    i as int,
                    if cost.spec_less(p.best_cost) {
                        with_best(q, position@, cost)
                    } else {
                        q
                    },
                ));
            }
            self.offer_best(position, cost);
        }
    }

    /// Offers some particles mutated positions.
    pub fn offer_all(&mut self, indices: &Vec<usize>, positions: &Vec<P>, costs: &Vec<F>)
        requires
            positions@.len() == indices@.len(),
            costs@.len() == indices@.len(),
            forall|i: int|
                0 <= i < indices@.len() ==> #[trigger] indices@[i] < old(self).particles@.len(),
        ensures
            final(self)@ == offered(
                old(self)@,
                indices@,
                positions@.map_values(|p: P| p@),
                costs@,
                indices@.len(),
            ),
    {
        let ghost views = positions@.map_values(|p: P| p@);
        let mut k: usize = 0;
        while k < indices.len()
            invariant
                k <= indices@.len(),
                positions@.len() == indices@.len(),
                costs@.len() == indices@.len(),
                views == positions@.map_values(|p: P| p@),
                forall|i: int|
                    0 <= i < indices@.len() ==> #[trigger] indices@[i] < old(self).particles@.len(),
                self.particles@.len() == old(self).particles@.len(),
                self@ == offered(old(self)@, indices@, views, costs@, k as nat),
            decreases indices@.len() - k,
        {
            let i: usize = indices[k];
            self.offer(i, &positions[k], costs[k]);
            assert(self@.particles.len() == old(self)@.particles.len());
            k = k + 1;
        }
    }

    /// Which particles cost more than the average.
    pub fn below_average(&self) -> (r: Vec<usize>)
        ensures
            r@ == above(
                self@.particles,
                average_cost(self@.particles),
                self@.particles.len(),
            ),
            forall|i: int| 0 <= i < r@.len() ==> #[trigger] r@[i] < self.particles@.len(),
    {
        let mut total = F::decimal(0, 0);
        let mut k: usize = 0;
        while k < self.particles.len()
            invariant
                k <= self.particles@.len(),
                total == total_cost(self@.particles, k as nat),
            decreases self.particles@.len() - k,
        {
            total = total.plus(self.particles[k].cost);
            k = k + 1;
        }
        let average = total.over(F::from_u64(self.particles.len() as u64));
        let mut r: Vec<usize> = Vec::new();
        let mut k: usize = 0;
        while k < self.particles.len()
            invariant
                k <= self.particles@.len(),
                average == average_cost(self@.particles),
                r@ == above(self@.particles, average, k as nat),
            decreases self.particles@.len() - k,
        {
            if average.less(self.particles[k].cost) {
                r.push(k);
            }
            k = k + 1;
        }
        proof {
            lemma_above(self@.particles, average, self@.particles.len());
        }
        r
    }
}

} // verus!
