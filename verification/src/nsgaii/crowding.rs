//! Crowding distances.

use crate::float;
use crate::float::Real;
use crate::nsgaii::individual;
use crate::nsgaii::individual::Individual;
use crate::ordering;
use crate::ordering::Precedence;
use vstd::prelude::*;

verus! {

/// The crowding distances of all members of a population.
pub open spec fn distances_of<P, F>(population: Seq<Individual<P, F>>) -> Seq<F> {
    Seq::new(population.len(), |i: int| population[i].crowding_distance)
}

/// A population with other crowding distances.
pub open spec fn with_distances<P, F>(
    population: Seq<Individual<P, F>>,
    distances: Seq<F>,
) -> Seq<Individual<P, F>> {
    Seq::new(
        population.len(),
        |i: int| Individual { crowding_distance: distances[i], ..population[i] },
    )
}

/// Which pairs of individuals are such that the first is less in objective `m`.
pub open spec fn by_objective<F: Real>(objectives: Seq<Seq<F>>, m: int) -> spec_fn(
    usize,
    usize,
) -> bool {
    |a: usize, b: usize| objectives[a as int][m].spec_less(objectives[b as int][m])
}

/// What objective `m` adds to the crowding distance of the individual at position `p` in
/// `order`: the difference between its two neighbours relative to the whole range, or a token
/// amount where there is no range to speak of.
pub open spec fn gain<F: Real>(objectives: Seq<Seq<F>>, m: int, order: Seq<usize>, p: int) -> F {
    let range = objectives[order.last() as int][m].spec_minus(objectives[order[0] as int][m]);
    if range.spec_magnitude().spec_less(F::spec_epsilon()) {
        F::spec_decimal(1, 10)
    } else {
        objectives[order[p + 1] as int][m].spec_minus(objectives[order[p - 1] as int][m]).spec_over(
            range,
        )
    }
}

/// The distances after the individuals between the first and position `p` of `order` have had
/// their gain. Infinite distances stay.
pub open spec fn spread_between<F: Real>(
    objectives: Seq<Seq<F>>,
    m: int,
    order: Seq<usize>,
    distances: Seq<F>,
    p: int,
) -> Seq<F>
    decreases p,
{
    if p <= 1 {
        distances
    } else {
        let sofar = spread_between(objectives, m, order, distances, p - 1);
        let i = order[p - 1] as int;
        if float::infinite(sofar[i]) {
            sofar
        } else {
            sofar.update(i, sofar[i].spec_plus(gain(objectives, m, order, p - 1)))
        }
    }
}

/// The distances after objective `m` of the individuals on `front` has been taken into account.
/// Those with the least and the greatest value become infinitely distant.
pub open spec fn spread<F: Real>(
    objectives: Seq<Seq<F>>,
    m: int,
    front: Seq<usize>,
    distances: Seq<F>,
) -> Seq<F> {
    let order = ordering::sorted(by_objective(objectives, m), front);
    let ends = distances.update(order[0] as int, F::spec_infinity()).update(
        order.last() as int,
        F::spec_infinity(),
    );
    spread_between(objectives, m, order, ends, order.len() - 1)
}

/// The distances after the first `m` objectives of the individuals on `front` have been taken
/// into account, starting from zero.
pub open spec fn crowding<F: Real>(
    objectives: Seq<Seq<F>>,
    m: nat,
    front: Seq<usize>,
    distances: Seq<F>,
) -> Seq<F>
    decreases m,
{
    if m == 0 {
        Seq::new(
            distances.len(),
            |i: int|
                if front.contains(i as usize) {
                    float::zero()
                } else {
                    distances[i]
                },
        )
    } else {
        spread(objectives, m - 1, front, crowding(objectives, (m - 1) as nat, front, distances))
    }
}

/// A population whose crowding distances on `front` have been calculated.
pub open spec fn crowded<P, F: Real>(
    population: Seq<Individual<P, F>>,
    front: Seq<usize>,
) -> Seq<Individual<P, F>> {
    let objectives = individual::objectives_of(population);
    if front.len() == 0 {
        population
    } else {
        with_distances(
            population,
            crowding(
                objectives,
                objectives[front[0] as int].len(),
                front,
                distances_of(population),
            ),
        )
    }
}

/// Whether `front` refers to members of the population that have at least as many objectives as
/// the first of them.
pub open spec fn is_front_of<P, F>(population: Seq<Individual<P, F>>, front: Seq<usize>) -> bool {
    forall|u: int|
        0 <= u < front.len() ==> (#[trigger] front[u]) < population.len()
            && population[front[0] as int].objectives@.len()
            <= population[front[u] as int].objectives@.len()
}

/// Orders individuals by one objective.
struct ByObjective<'a, P, F> {
    population: &'a Vec<Individual<P, F>>,
    m: usize,
}

impl<'a, P, F: Real> Precedence<usize> for ByObjective<'a, P, F> {
    closed spec fn order(&self) -> spec_fn(usize, usize) -> bool {
        by_objective(individual::objectives_of(self.population@), self.m as int)
    }

    closed spec fn covers(&self, a: usize) -> bool {
        a < self.population@.len() && self.m < self.population@[a as int].objectives@.len()
    }

    fn precedes(&self, a: &usize, b: &usize) -> (r: bool) {
        self.population[*a].objectives[self.m].less(self.population[*b].objectives[self.m])
    }
}

/// Lets objective `m` of the individuals on `front` add to their crowding distances.
fn spread_objective<P, F: Real>(
    population: &mut Vec<Individual<P, F>>,
    front: &Vec<usize>,
    m: usize,
)
    requires
        front@.len() > 0,
        forall|u: int|
            0 <= u < front@.len() ==> (#[trigger] front@[u]) < old(population)@.len() && m < old(
                population,
            )@[front@[u] as int].objectives@.len(),
    ensures
        final(population)@ == with_distances(
            old(population)@,
            spread(
                individual::objectives_of(old(population)@),
                m as int,
                front@,
                distances_of(old(population)@),
            ),
        ),
{
    let ghost before = population@;
    let ghost objectives = individual::objectives_of(before);
    let n: usize = front.len();
    let sorted_indices = ordering::sort_by(&ByObjective { population: &*population, m }, individual::copy_values(front));
    let ghost order = sorted_indices@;
    proof {
        ordering::law_sorted_is_permutation(by_objective(objectives, m as int), front@);
        assert forall|u: int| 0 <= u < n implies (#[trigger] order[u]) < before.len() && m
            < before[order[u] as int].objectives@.len() by {
            assert(order.contains(order[u]));
        }
    }
    population[sorted_indices[0]].crowding_distance = F::infinity();
    population[sorted_indices[n - 1]].crowding_distance = F::infinity();
    let ghost ends = distances_of(before).update(order[0] as int, F::spec_infinity()).update(
        order.last() as int,
        F::spec_infinity(),
    );
    if n <= 2 {
        return;
    }
    let obj_min = population[sorted_indices[0]].objectives[m];
    let obj_max = population[sorted_indices[n - 1]].objectives[m];
    let range = obj_max.minus(obj_min);
    let degenerate = range.magnitude().less(F::epsilon());
    let mut p: usize = 1;
    while p < n - 1
        invariant
            1 <= p <= n - 1,
            2 < n == order.len(),
            order == sorted_indices@,
            objectives == individual::objectives_of(before),
            ends.len() == before.len(),
            forall|u: int|
                0 <= u < n ==> (#[trigger] order[u]) < before.len() && m
                    < before[order[u] as int].objectives@.len(),
            range == objectives[order.last() as int][m as int].spec_minus(
                objectives[order[0] as int][m as int],
            ),
            degenerate == range.spec_magnitude().spec_less(F::spec_epsilon()),
            spread_between(objectives, m as int, order, ends, p as int).len() == before.len(),
            population@ =~= with_distances(
                before,
                spread_between(objectives, m as int, order, ends, p as int),
            ),
        decreases n - p,
    {
        let idx: usize = sorted_indices[p];
        let distance = population[idx].crowding_distance;
        if !float::is_infinite(distance) {
            let gained = if degenerate {
                F::decimal(1, 10)
            } else {
                let prev_obj = population[sorted_indices[p - 1]].objectives[m];
                let next_obj = population[sorted_indices[p + 1]].objectives[m];
                next_obj.minus(prev_obj).over(range)
            };
            population[idx].crowding_distance = distance.plus(gained);
        }
        p = p + 1;
    }
}

/// Calculates the crowding distances of the individuals on `front`.
pub fn crowd<P, F: Real>(population: &mut Vec<Individual<P, F>>, front: &Vec<usize>)
    requires
        is_front_of(old(population)@, front@),
    ensures
        final(population)@ == crowded(old(population)@, front@),
{
    let ghost before = population@;
    let ghost objectives = individual::objectives_of(before);
    let n: usize = front.len();
    if n == 0 {
        return;
    }
    assert(population.len() == before.len());
    let num_objectives: usize = population[front[0]].objectives.len();
    let mut u: usize = 0;
    let ghost distances = distances_of(before);
    while u < n
        invariant
            u <= n,
            n == front@.len(),
            before.len() <= usize::MAX,
            is_front_of(before, front@),
            distances == distances_of(before),
            population@ =~= with_distances(
                before,
                Seq::new(
                    before.len(),
                    |i: int|
                        if front@.take(u as int).contains(i as usize) {
                            float::zero()
                        } else {
                            distances[i]
                        },
                ),
            ),
        decreases n - u,
    {
        let i: usize = front[u];
        population[i].crowding_distance = F::decimal(0, 0);
        proof {
            let now = front@.take(u as int);
            let next = front@.take(u + 1);
            assert forall|h: int| 0 <= h < before.len() implies (#[trigger] next.contains(
                h as usize,
            ) <==> h == i || now.contains(h as usize)) by {
                if h == i {
                    assert(next[u as int] == i);
                }
            }
        }
        u = u + 1;
    }
    proof {
        assert(front@.take(u as int) =~= front@);
    }
    let mut m: usize = 0;
    while m < num_objectives
        invariant
            m <= num_objectives,
            front@.len() > 0,
            is_front_of(before, front@),
            num_objectives == before[front@[0] as int].objectives@.len(),
            objectives == individual::objectives_of(before),
            distances == distances_of(before),
            crowding(objectives, m as nat, front@, distances).len() == before.len(),
            population@ =~= with_distances(
                before,
                crowding(objectives, m as nat, front@, distances),
            ),
        decreases num_objectives - m,
    {
        let ghost sofar = crowding(objectives, m as nat, front@, distances);
        proof {
            assert(individual::objectives_of(population@) =~= objectives);
            assert(distances_of(population@) =~= sofar);
        }
        spread_objective(population, front, m);
        proof {
            lemma_spread_length(objectives, m as int, front@, sofar);
        }
        m = m + 1;
    }
}

/// Adding to distances neither adds nor loses any.
pub proof fn lemma_spread_between_length<F: Real>(
    objectives: Seq<Seq<F>>,
    m: int,
    order: Seq<usize>,
    distances: Seq<F>,
    p: int,
)
    requires
        p <= order.len(),
        forall|u: int| 0 <= u < order.len() ==> (#[trigger] order[u]) < distances.len(),
    ensures
        spread_between(objectives, m, order, distances, p).len() == distances.len(),
    decreases p,
{
    if p > 1 {
        lemma_spread_between_length(objectives, m, order, distances, p - 1);
    }
}

/// Taking an objective into account neither adds nor loses distances.
pub proof fn lemma_spread_length<F: Real>(
    objectives: Seq<Seq<F>>,
    m: int,
    front: Seq<usize>,
    distances: Seq<F>,
)
    requires
        front.len() > 0,
        forall|u: int| 0 <= u < front.len() ==> (#[trigger] front[u]) < distances.len(),
    ensures
        spread(objectives, m, front, distances).len() == distances.len(),
{
    let order = ordering::sorted(by_objective(objectives, m), front);
    let ends = distances.update(order[0] as int, F::spec_infinity()).update(
        order.last() as int,
        F::spec_infinity(),
    );
    ordering::law_sorted_is_permutation(by_objective(objectives, m), front);
    assert forall|u: int| 0 <= u < order.len() implies (#[trigger] order[u]) < distances.len() by {
        assert(order.contains(order[u]));
    }
    lemma_spread_between_length(objectives, m, order, ends, order.len() - 1);
}

proof fn lemma_spread_elsewhere<F: Real>(
    objectives: Seq<Seq<F>>,
    m: int,
    order: Seq<usize>,
    distances: Seq<F>,
    p: int,
    i: int,
)
    requires
        p <= order.len(),
        0 <= i < distances.len(),
        forall|u: int| 0 <= u < order.len() ==> (#[trigger] order[u]) < distances.len(),
        forall|u: int| 0 <= u < order.len() ==> #[trigger] order[u] != i,
    ensures
        spread_between(objectives, m, order, distances, p)[i] == distances[i],
    decreases p,
{
    if p > 1 {
        lemma_spread_between_length(objectives, m, order, distances, p - 1);
        lemma_spread_elsewhere(objectives, m, order, distances, p - 1, i);
    }
}

/// Calculating the distances on a front leaves the distances of everyone else unchanged.
pub proof fn law_crowding_elsewhere<F: Real>(
    objectives: Seq<Seq<F>>,
    m: nat,
    front: Seq<usize>,
    distances: Seq<F>,
    i: int,
)
    requires
        front.len() > 0,
        forall|u: int| 0 <= u < front.len() ==> (#[trigger] front[u]) < distances.len(),
        0 <= i < distances.len() <= usize::MAX,
        !front.contains(i as usize),
    ensures
        crowding(objectives, m, front, distances).len() == distances.len(),
        crowding(objectives, m, front, distances)[i] == distances[i],
    decreases m,
{
    if m > 0 {
        law_crowding_elsewhere(objectives, (m - 1) as nat, front, distances, i);
        let sofar = crowding(objectives, (m - 1) as nat, front, distances);
        lemma_spread_length(objectives, m - 1, front, sofar);
        let order = ordering::sorted(by_objective(objectives, m - 1), front);
        ordering::law_sorted_is_permutation(by_objective(objectives, m - 1), front);
        let ends = sofar.update(order[0] as int, F::spec_infinity()).update(
            order.last() as int,
            F::spec_infinity(),
        );
        assert forall|u: int| 0 <= u < order.len() implies (#[trigger] order[u]) < sofar.len()
            && order[u] != i by {
            assert(order.contains(order[u]));
        }
        lemma_spread_elsewhere(objectives, m - 1, order, ends, order.len() - 1, i);
    }
}

} // verus!
