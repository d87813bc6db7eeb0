//! What holds of the step from one generation to the next.

use crate::counting;
use crate::error::ErrorView;
use crate::float;
use crate::float::{ArgminFloat, Real};
use crate::nsgaii::crowding;
use crate::nsgaii::dominance;
use crate::nsgaii::generation;
use crate::nsgaii::individual;
use crate::nsgaii::individual::Individual;
use crate::nsgaii::selection;
use crate::nsgaii::solver::NsgaII;
use crate::nsgaii::sorting;
use crate::nsgaii::variation;
use crate::ordering;
use crate::problem::MultiObjectiveCostFunction;
use crate::random;
use crate::random::RandomSource;
use vstd::prelude::*;

verus! {

/// Which individuals have a rank below `r`.
spec fn below<P, F>(population: Seq<Individual<P, F>>, r: nat) -> spec_fn(int) -> bool {
    |i: int| population[i].rank < r
}

/// Which individuals have rank `r`.
spec fn at<P, F>(population: Seq<Individual<P, F>>, r: nat) -> spec_fn(int) -> bool {
    |i: int| population[i].rank == r
}

proof fn lemma_members_counted<P, F>(population: Seq<Individual<P, F>>, r: nat, upto: nat)
    requires
        upto <= population.len(),
    ensures
        selection::members(population, r, upto as int).len() == counting::count(
            upto,
            at(population, r),
        ),
    decreases upto,
{
    if upto > 0 {
        lemma_members_counted(population, r, (upto - 1) as nat);
    }
}

proof fn lemma_below_counted<P, F>(population: Seq<Individual<P, F>>, r: nat, upto: nat)
    requires
        upto <= population.len(),
        r > 0,
    ensures
        counting::count(upto, below(population, r)) == counting::count(
            upto,
            below(population, (r - 1) as nat),
        ) + counting::count(upto, at(population, (r - 1) as nat)),
    decreases upto,
{
    if upto > 0 {
        lemma_below_counted(population, r, (upto - 1) as nat);
    }
}

/// As many survive from the first fronts as are on them, or as fit.
proof fn lemma_survivor_count<P, F: Real>(
    population: Seq<Individual<P, F>>,
    size: nat,
    r: nat,
)
    ensures
        selection::survivors(population, size, r).0.len() == vstd::math::min(
            size as int,
            counting::count(population.len(), below(population, r)) as int,
        ),
    decreases r,
{
    let n = population.len();
    if r == 0 {
        counting::lemma_count_zero(n, below(population, 0));
    } else {
        let q = (r - 1) as nat;
        lemma_survivor_count(population, size, q);
        lemma_below_counted(population, r, n);
        lemma_members_counted(population, q, n);
        let (chosen, people) = selection::survivors(population, size, q);
        let next = selection::front(population, q);
        if chosen.len() < size && chosen.len() + next.len() > size {
            let crowded = crowding::crowded(people, next);
            ordering::law_sorted_is_permutation(selection::by_distance(crowded), next);
        }
    }
}

/// Nobody has a rank above the largest one.
proof fn lemma_max_rank<P, F>(population: Seq<Individual<P, F>>, upto: int, i: int)
    requires
        0 <= i < upto <= population.len(),
    ensures
        population[i].rank <= selection::max_rank(population, upto),
    decreases upto,
{
    if i < upto - 1 {
        lemma_max_rank(population, upto - 1, i);
    }
}

/// The next generation has the size of the population, or everyone if there are fewer.
pub proof fn law_generation_size<P: View, F: Real>(
    population: Seq<Individual<P, F>>,
    size: nat,
    after: Seq<Individual<P, F>>,
    generation: Seq<Individual<P, F>>,
)
    requires
        selection::is_next_generation(population, size, after, generation),
    ensures
        generation.len() == vstd::math::min(size as int, population.len() as int),
{
    let people = sorting::ranked(population);
    let n = people.len();
    let last = selection::max_rank(people, n as int) + 1;
    lemma_survivor_count(people, size, last);
    let all = |i: int| true;
    assert forall|i: int| 0 <= i < n implies #[trigger] below(people, last)(i) == all(i) by {
        lemma_max_rank(people, n as int, i);
    }
    counting::lemma_count_equal(n, below(people, last), all);
    lemma_count_all(n);
}

proof fn lemma_count_all(n: nat)
    ensures
        counting::count(n, |i: int| true) == n,
    decreases n,
{
    if n > 0 {
        lemma_count_all((n - 1) as nat);
    }
}

/// What holds of those who survive from the fronts below `r`: they are individuals of these fronts,
/// each once. As long as there is room, everyone from these fronts survives. Nobody who does not
/// survive has a lower rank than one who does.
pub proof fn lemma_survivors<P, F: Real>(population: Seq<Individual<P, F>>, size: nat, r: nat)
    requires
        population.len() <= usize::MAX,
    ensures
        ({
            let chosen = selection::survivors(population, size, r).0;
            &&& chosen.no_duplicates()
            &&& forall|u: int|
                0 <= u < chosen.len() ==> (#[trigger] chosen[u]) < population.len()
                    && population[chosen[u] as int].rank < r
            &&& chosen.len() < size ==> forall|i: int|
                0 <= i < population.len() && (#[trigger] population[i]).rank < r ==> chosen.contains(
                    i as usize,
                )
            &&& forall|u: int, i: int|
                0 <= u < chosen.len() && 0 <= i < population.len() && !chosen.contains(i as usize)
                    ==> (#[trigger] population[chosen[u] as int]).rank <= (
                #[trigger] population[i]).rank
        }),
    decreases r,
{
    if r > 0 {
        let q = (r - 1) as nat;
        lemma_survivors(population, size, q);
        let (old_chosen, people) = selection::survivors(population, size, q);
        let chosen = selection::survivors(population, size, r).0;
        let next = selection::front(population, q);
        selection::lemma_members(population, q, population.len() as int);
        if old_chosen.len() < size {
            let added = if old_chosen.len() + next.len() <= size {
                next
            } else {
                let crowded = crowding::crowded(people, next);
                let order = ordering::sorted(selection::by_distance(crowded), next);
                order.take(size - old_chosen.len())
            };
            lemma_added(population, size, q, old_chosen, people, next, added);
            if chosen.len() < size {
                assert forall|i: int|
                    0 <= i < population.len() && (#[trigger] population[i]).rank
                        < r implies chosen.contains(i as usize) by {
                    if population[i].rank < q {
                        let u = choose|u: int|
                            0 <= u < old_chosen.len() && old_chosen[u] == i as usize;
                        assert(chosen[u] == i as usize);
                    } else {
                        let u = choose|u: int| 0 <= u < next.len() && next[u] == i as usize;
                        assert(chosen[old_chosen.len() + u] == i as usize);
                    }
                }
            }
            assert forall|u: int, i: int|
                0 <= u < chosen.len() && 0 <= i < population.len() && !chosen.contains(
                    i as usize,
                ) implies (#[trigger] population[chosen[u] as int]).rank <= (
            #[trigger] population[i]).rank by {
                if population[i].rank < q {
                    let v = choose|v: int| 0 <= v < old_chosen.len() && old_chosen[v] == i as usize;
                    assert(chosen[v] == i as usize);
                }
            }
        }
    }
}

/// Those who are added from a front are on it, each once.
proof fn lemma_added<P, F: Real>(
    population: Seq<Individual<P, F>>,
    size: nat,
    q: nat,
    old_chosen: Seq<usize>,
    people: Seq<Individual<P, F>>,
    next: Seq<usize>,
    added: Seq<usize>,
)
    requires
        population.len() <= usize::MAX,
        next == selection::front(population, q),
        old_chosen.len() < size,
        added == if old_chosen.len() + next.len() <= size {
            next
        } else {
            ordering::sorted(selection::by_distance(crowding::crowded(people, next)), next).take(
                size - old_chosen.len(),
            )
        },
    ensures
        added.no_duplicates(),
        forall|v: int|
            0 <= v < added.len() ==> (#[trigger] added[v]) < population.len()
                && population[added[v] as int].rank == q,
        old_chosen.len() + next.len() > size ==> added.len() == size - old_chosen.len(),
{
    selection::lemma_members(population, q, population.len() as int);
    if old_chosen.len() + next.len() > size {
        let before = selection::by_distance(crowding::crowded(people, next));
        let order = ordering::sorted(before, next);
        ordering::law_sorted_is_permutation(before, next);
        next.lemma_multiset_has_no_duplicates();
        order.lemma_multiset_has_no_duplicates_conv();
        assert forall|v: int| 0 <= v < added.len() implies (#[trigger] added[v]) < population.len()
            && population[added[v] as int].rank == q by {
            assert(order.contains(order[v]));
        }
    }
}

/// Who survives.
pub open spec fn chosen_from<P, F: Real>(
    population: Seq<Individual<P, F>>,
    size: nat,
) -> Seq<usize> {
    let people = sorting::ranked(population);
    selection::survivors(people, size, selection::max_rank(people, people.len() as int) + 1).0
}

/// Survival is elitist: nobody survives twice, and nobody who does not survive has a lower rank than
/// one who does.
pub proof fn law_survivors_rank_first<P, F: Real>(
    population: Seq<Individual<P, F>>,
    size: nat,
    u: int,
    i: int,
)
    requires
        population.len() <= usize::MAX,
        0 <= u < chosen_from(population, size).len(),
        0 <= i < population.len(),
        !chosen_from(population, size).contains(i as usize),
    ensures
        chosen_from(population, size).no_duplicates(),
        chosen_from(population, size)[u] < population.len(),
        sorting::ranked(population)[chosen_from(population, size)[u] as int].rank
            <= sorting::ranked(population)[i].rank,
{
    let people = sorting::ranked(population);
    let last = selection::max_rank(people, people.len() as int) + 1;
    lemma_survivors(people, size, last);
}

/// Among individuals with the same number of objectives, all of them numbers, nobody who survives is
/// dominated by one who does not.
pub proof fn law_survivors_not_dominated_by_others<P, F: Real>(
    population: Seq<Individual<P, F>>,
    size: nat,
    u: int,
    i: int,
)
    requires
        population.len() <= usize::MAX,
        dominance::well_defined(individual::objectives_of(population)),
        0 <= u < chosen_from(population, size).len(),
        0 <= i < population.len(),
        !chosen_from(population, size).contains(i as usize),
    ensures
        !dominance::dominating(
            population[i].objectives@,
            population[chosen_from(population, size)[u] as int].objectives@,
        ),
{
    let objectives = individual::objectives_of(population);
    law_survivors_rank_first(population, size, u, i);
    let c = chosen_from(population, size)[u] as int;
    if dominance::dominating(objectives[i], objectives[c]) {
        dominance::law_everyone_on_a_front(objectives, c);
        let r = dominance::front_of(objectives, c)->0;
        dominance::law_dominator_on_earlier_front(objectives, i, c, r);
    }
}

/// The population after the survivors have been chosen.
pub open spec fn crowded_from<P, F: Real>(
    population: Seq<Individual<P, F>>,
    size: nat,
) -> Seq<Individual<P, F>> {
    let people = sorting::ranked(population);
    selection::survivors(people, size, selection::max_rank(people, people.len() as int) + 1).1
}

/// Of the individuals of one rank, everyone who survives is at least as distant as everyone who does
/// not, where the distances are numbers.
pub proof fn law_survivors_are_most_distant<P, F: Real>(
    population: Seq<Individual<P, F>>,
    size: nat,
    u: int,
    i: int,
)
    requires
        population.len() <= usize::MAX,
        0 <= u < chosen_from(population, size).len(),
        0 <= i < population.len(),
        !chosen_from(population, size).contains(i as usize),
        ({
            let after = crowded_from(population, size);
            &&& after[chosen_from(population, size)[u] as int].rank == after[i].rank
            &&& forall|j: int|
                0 <= j < after.len() ==> float::defined((#[trigger] after[j]).crowding_distance)
        }),
    ensures
        float::at_most(
            crowded_from(population, size)[i].crowding_distance,
            crowded_from(population, size)[chosen_from(population, size)[u] as int].crowding_distance,
        ),
{
    let people = sorting::ranked(population);
    let last = selection::max_rank(people, people.len() as int) + 1;
    let (chosen, after) = selection::survivors(people, size, last);
    lemma_survivors(people, size, last);
    lemma_survivors_keep_positions(people, size, last);
    lemma_max_rank(people, people.len() as int, i);
    lemma_most_distant(people, size, last, u, i);
    let (a, b) = (after[i].crowding_distance, after[chosen[u] as int].crowding_distance);
    F::order_laws(a, b, a);
}

proof fn lemma_most_distant<P, F: Real>(
    population: Seq<Individual<P, F>>,
    size: nat,
    r: nat,
    u: int,
    i: int,
)
    requires
        population.len() <= usize::MAX,
        0 <= u < selection::survivors(population, size, r).0.len(),
        0 <= i < population.len(),
        !selection::survivors(population, size, r).0.contains(i as usize),
        population[selection::survivors(population, size, r).0[u] as int].rank
            == population[i].rank,
        population[i].rank < r,
        forall|j: int|
            0 <= j < population.len() ==> float::defined(
                (#[trigger] selection::survivors(population, size, r).1[j]).crowding_distance,
            ),
    ensures
        ({
            let (chosen, after) = selection::survivors(population, size, r);
            !after[chosen[u] as int].crowding_distance.spec_less(after[i].crowding_distance)
        }),
    decreases r,
{
    let q = (r - 1) as nat;
    let (old_chosen, people) = selection::survivors(population, size, q);
    let (chosen, after) = selection::survivors(population, size, r);
    let next = selection::front(population, q);
    lemma_survivors(population, size, q);
    lemma_survivors_keep_positions(population, size, r);
    selection::lemma_members(population, q, population.len() as int);
    if old_chosen.len() >= size {
        lemma_most_distant(population, size, q, u, i);
    } else {
        if u < old_chosen.len() {
            let v = choose|v: int| 0 <= v < old_chosen.len() && old_chosen[v] == i as usize;
            assert(chosen[v] == i as usize);
        }
        assert(u >= old_chosen.len());
        if old_chosen.len() + next.len() <= size {
            assert(next[u - old_chosen.len()] == chosen[u]);
            let v = choose|v: int| 0 <= v < next.len() && next[v] == i as usize;
            assert(chosen[old_chosen.len() + v] == i as usize);
        } else {
            let before = selection::by_distance(after);
            let sorted = ordering::sorted(before, next);
            let room = size - old_chosen.len();
            ordering::law_sorted_is_permutation(before, next);
            assert(chosen[u] == sorted[u - old_chosen.len()]);
            assert(sorted.contains(chosen[u]));
            assert(population[i].rank == q);
            assert(sorted.contains(i as usize));
            let v = choose|v: int| 0 <= v < sorted.len() && sorted[v] == i as usize;
            if v < room {
                assert(chosen[old_chosen.len() + v] == i as usize);
            }
            assert(ordering::is_ordered_by(before, next)) by {
                assert forall|a: usize| next.contains(a) implies !#[trigger] before(a, a) by {
                    let d = after[a as int].crowding_distance;
                    F::order_laws(d, d, d);
                }
                assert forall|a: usize, b: usize, c: usize|
                    next.contains(a) && next.contains(b) && next.contains(c) && #[trigger] before(
                        a,
                        b,
                    ) && #[trigger] before(b, c) implies before(a, c) by {
                    F::order_laws(
                        after[c as int].crowding_distance,
                        after[b as int].crowding_distance,
                        after[a as int].crowding_distance,
                    );
                }
                assert forall|a: usize, b: usize, c: usize|
                    next.contains(a) && next.contains(b) && next.contains(c) && #[trigger] before(
                        a,
                        c,
                    ) && !before(a, b) implies #[trigger] before(b, c) by {
                    let x = after[a as int].crowding_distance;
                    let y = after[b as int].crowding_distance;
                    let z = after[c as int].crowding_distance;
                    F::order_laws(z, x, y);
                    F::order_laws(y, x, y);
                }
            }
            ordering::law_sorted_in_order(before, next);
            assert(!before(sorted[v], sorted[u - old_chosen.len()]));
        }
    }
}

/// Whether a position has a value within the bounds for every dimension.
pub open spec fn is_within<F: Real>(position: Seq<F>, bounds: Seq<(F, F)>) -> bool {
    &&& position.len() == bounds.len()
    &&& forall|i: int|
        0 <= i < position.len() ==> variation::within(#[trigger] position[i], bounds[i])
}

/// Whether all lower bounds are at most the upper bounds.
pub open spec fn are_ordered<F: Real>(bounds: Seq<(F, F)>) -> bool {
    forall|i: int| 0 <= i < bounds.len() ==> float::at_most((#[trigger] bounds[i]).0, bounds[i].1)
}

/// The children that come from parents within the bounds are within the bounds.
pub proof fn law_brood_within<F: ArgminFloat, R>(
    settings: NsgaII<F, R>,
    population: Seq<Individual<Vec<F>, F>>,
    children: (Seq<F>, Seq<F>),
)
    requires
        are_ordered(settings.bounds@),
        forall|i: int|
            0 <= i < population.len() ==> is_within(
                (#[trigger] population[i]).position@,
                settings.bounds@,
            ),
        generation::is_brood(settings, population, children),
    ensures
        is_within(children.0, settings.bounds@),
        is_within(children.1, settings.bounds@),
{
    let bounds = settings.bounds@;
    let (a, b, between) = choose|a: int, b: int, between: (Seq<F>, Seq<F>)| #[trigger]
        generation::is_parentage(settings, population, a, b, between, children);
    let parents = (population[a].position@, population[b].position@);
    lemma_crossing_within(
        bounds,
        settings.crossover_probability,
        settings.crossover_eta,
        parents,
        between,
    );
    lemma_mutation_within(
        bounds,
        settings.mutation_probability,
        settings.mutation_eta,
        between.0,
        children.0,
    );
    lemma_mutation_within(
        bounds,
        settings.mutation_probability,
        settings.mutation_eta,
        between.1,
        children.1,
    );
}

proof fn lemma_crossing_within<F: ArgminFloat>(
    bounds: Seq<(F, F)>,
    probability: F,
    eta: F,
    parents: (Seq<F>, Seq<F>),
    children: (Seq<F>, Seq<F>),
)
    requires
        are_ordered(bounds),
        is_within(parents.0, bounds),
        is_within(parents.1, bounds),
        variation::is_crossing(bounds, probability, eta, parents, children),
    ensures
        is_within(children.0, bounds),
        is_within(children.1, bounds),
{
    if children != parents {
        assert forall|i: int| 0 <= i < bounds.len() implies variation::within(
            #[trigger] children.0[i],
            bounds[i],
        ) && variation::within(children.1[i], bounds[i]) by {
            let pair = (parents.0[i], parents.1[i]);
            let born = (children.0[i], children.1[i]);
            let (v, u) = choose|v: F::Wide, u: F::Wide| #[trigger]
                random::is_unit(v) && #[trigger] random::is_unit(u) && born
                    == if variation::half::<F::Wide>().spec_less(v) {
                    pair
                } else {
                    variation::crossed(pair, bounds[i], eta.spec_widen(), u)
                };
            variation::law_crossed_within(pair, bounds[i], eta.spec_widen(), u);
        }
        assert forall|i: int| 0 <= i < children.1.len() implies variation::within(
            #[trigger] children.1[i],
            bounds[i],
        ) by {
            assert(variation::within(children.0[i], bounds[i]));
        }
    }
}

proof fn lemma_mutation_within<F: ArgminFloat>(
    bounds: Seq<(F, F)>,
    probability: F,
    eta: F,
    x: Seq<F>,
    y: Seq<F>,
)
    requires
        are_ordered(bounds),
        is_within(x, bounds),
        variation::is_mutation(bounds, probability, eta, x, y),
    ensures
        is_within(y, bounds),
{
    assert forall|i: int| 0 <= i < y.len() implies variation::within(#[trigger] y[i], bounds[i]) by {
        let (t, u) = choose|t: F::Wide, u: F::Wide| #[trigger]
            random::is_unit(t) && #[trigger] random::is_unit(u) && y[i]
                == if probability.spec_widen().spec_less(t) {
                x[i]
            } else {
                variation::mutated(x[i], bounds[i], eta.spec_widen(), u)
            };
        variation::law_mutated_within(x[i], bounds[i], eta.spec_widen(), u);
    }
}

/// Selection changes nobody's position, objectives or rank.
pub proof fn lemma_survivors_keep_positions<P, F: Real>(
    population: Seq<Individual<P, F>>,
    size: nat,
    r: nat,
)
    ensures
        selection::survivors(population, size, r).1.len() == population.len(),
        forall|i: int|
            0 <= i < population.len() ==> (#[trigger] selection::survivors(
                population,
                size,
                r,
            ).1[i]).position == population[i].position,
        forall|i: int|
            0 <= i < population.len() ==> (#[trigger] selection::survivors(
                population,
                size,
                r,
            ).1[i]).objectives == population[i].objectives,
        forall|i: int|
            0 <= i < population.len() ==> (#[trigger] selection::survivors(
                population,
                size,
                r,
            ).1[i]).rank == population[i].rank,
    decreases r,
{
    if r > 0 {
        lemma_survivors_keep_positions(population, size, (r - 1) as nat);
    }
}

/// If all positions of a generation are within the bounds, then all positions of the next one are.
pub proof fn law_successor_within<F: ArgminFloat, R: RandomSource, O: MultiObjectiveCostFunction<F>>(
    settings: NsgaII<F, R>,
    problem: O,
    population: Seq<Individual<Vec<F>, F>>,
    next: Seq<Individual<Vec<F>, F>>,
    k: int,
)
    requires
        are_ordered(settings.bounds@),
        forall|i: int|
            0 <= i < population.len() ==> is_within(
                (#[trigger] population[i]).position@,
                settings.bounds@,
            ),
        generation::is_successor(settings, problem, population, next),
        0 <= k < next.len(),
    ensures
        is_within(next[k].position@, settings.bounds@),
{
    let (offspring, after) = choose|
        offspring: Seq<Individual<Vec<F>, F>>,
        after: Seq<Individual<Vec<F>, F>>,
    | #[trigger]
        generation::is_successor_with(settings, problem, population, offspring, after, next);
    let all = population + offspring;
    let people = sorting::ranked(all);
    let last = selection::max_rank(people, people.len() as int) + 1;
    let (chosen, crowded) = selection::survivors(people, settings.population_size as nat, last);
    lemma_survivors(people, settings.population_size as nat, last);
    lemma_survivors_keep_positions(people, settings.population_size as nat, last);
    let c = chosen[k] as int;
    if c >= population.len() {
        let j = c - population.len();
        let m = j / 2;
        assert(generation::is_litter(settings, problem, population, offspring, m));
        let born = generation::born(settings, population, m as nat);
        law_brood_within(settings, population, born);
    }
}

/// The next generation has as many individuals as the solver is set to.
pub proof fn law_successor_size<F: ArgminFloat, R: RandomSource, O: MultiObjectiveCostFunction<F>>(
    settings: NsgaII<F, R>,
    problem: O,
    population: Seq<Individual<Vec<F>, F>>,
    next: Seq<Individual<Vec<F>, F>>,
)
    requires
        generation::is_successor(settings, problem, population, next),
    ensures
        next.len() == settings.population_size,
{
    let (offspring, after) = choose|
        offspring: Seq<Individual<Vec<F>, F>>,
        after: Seq<Individual<Vec<F>, F>>,
    | #[trigger]
        generation::is_successor_with(settings, problem, population, offspring, after, next);
    law_generation_size(
        population + offspring,
        settings.population_size as nat,
        after,
        next,
    );
}

/// The next generation has what a further generation needs, so that the solver can go on from it.
pub proof fn law_successor_is_generation<F: ArgminFloat, R: RandomSource, O: MultiObjectiveCostFunction<F>>(
    settings: NsgaII<F, R>,
    problem: O,
    population: Seq<Individual<Vec<F>, F>>,
    next: Seq<Individual<Vec<F>, F>>,
)
    requires
        settings.population_size > 0,
        generation::is_generation(problem, settings.bounds@, population),
        generation::is_successor(settings, problem, population, next),
    ensures
        generation::is_generation(problem, settings.bounds@, next),
{
    let (offspring, after) = choose|
        offspring: Seq<Individual<Vec<F>, F>>,
        after: Seq<Individual<Vec<F>, F>>,
    | #[trigger]
        generation::is_successor_with(settings, problem, population, offspring, after, next);
    let size = settings.population_size as nat;
    let all = population + offspring;
    let people = sorting::ranked(all);
    let last = selection::max_rank(people, people.len() as int) + 1;
    let (chosen, crowded) = selection::survivors(people, size, last);
    generation::lemma_selectable(problem, settings, population, offspring, size);
    lemma_survivors(people, size, last);
    lemma_survivors_keep_positions(people, size, last);
    let width = population[0].position@.len();
    assert forall|j: int| 0 <= j < offspring.len() implies (#[trigger] offspring[j]).position@.len()
        == width && offspring[j].objectives@.len() == problem.objective_count() by {
        let m = j / 2;
        assert(generation::is_litter(settings, problem, population, offspring, m));
        let born = generation::born(settings, population, m as nat);
        let (a, b, between) = choose|a: int, b: int, between: (Seq<F>, Seq<F>)| #[trigger]
            generation::is_parentage(settings, population, a, b, between, born);
    }
}

/// Whether an individual has a position within the bounds and `m` finite objectives.
pub open spec fn is_sound<F: Real>(
    one: Individual<Vec<F>, F>,
    m: nat,
    bounds: Seq<(F, F)>,
) -> bool {
    &&& is_within(one.position@, bounds)
    &&& one.objectives@.len() == m
    &&& forall|k: int| 0 <= k < m ==> float::finite(#[trigger] one.objectives@[k])
}

/// A generation of sound individuals is followed by one of as many sound individuals as the solver
/// is set to. Each of them is an individual of the generation before, or a child with the objectives
/// that the problem may answer for it.
pub proof fn law_successor_is_sound<
    F: ArgminFloat,
    R: RandomSource,
    O: MultiObjectiveCostFunction<F>,
>(
    settings: NsgaII<F, R>,
    problem: O,
    population: Seq<Individual<Vec<F>, F>>,
    next: Seq<Individual<Vec<F>, F>>,
    k: int,
)
    requires
        are_ordered(settings.bounds@),
        generation::is_generation(problem, settings.bounds@, population),
        forall|i: int|
            0 <= i < population.len() ==> is_sound(
                #[trigger] population[i],
                problem.objective_count(),
                settings.bounds@,
            ),
        generation::is_successor(settings, problem, population, next),
        0 <= k < next.len(),
    ensures
        next.len() == settings.population_size,
        is_sound(next[k], problem.objective_count(), settings.bounds@),
        (exists|i: int| {
            &&& 0 <= i < population.len()
            &&& next[k].position@ == (#[trigger] population[i]).position@
            &&& next[k].objectives@ == population[i].objectives@
        }) || problem.may_score(
            next[k].position@,
            Ok::<Seq<F>, ErrorView>(next[k].objectives@),
        ),
{
    law_successor_size(settings, problem, population, next);
    law_successor_within(settings, problem, population, next, k);
    let (offspring, after) = choose|
        offspring: Seq<Individual<Vec<F>, F>>,
        after: Seq<Individual<Vec<F>, F>>,
    | #[trigger]
        generation::is_successor_with(settings, problem, population, offspring, after, next);
    let size = settings.population_size as nat;
    let people = sorting::ranked(population + offspring);
    let last = selection::max_rank(people, people.len() as int) + 1;
    let (chosen, crowded) = selection::survivors(people, size, last);
    lemma_survivors(people, size, last);
    lemma_survivors_keep_positions(people, size, last);
    let c = chosen[k] as int;
    assert(next[k]@ == crowded[c]@);
    if c < population.len() {
        assert(next[k].position@ == population[c].position@);
        assert(next[k].objectives@ == population[c].objectives@);
        assert(is_sound(population[c], problem.objective_count(), settings.bounds@));
    } else {
        let j = c - population.len();
        assert(generation::is_litter(settings, problem, population, offspring, j / 2));
        let objectives = next[k].objectives@;
        assert(objectives == offspring[j].objectives@);
        lemma_first_none(objectives.len(), generation::not_finite(objectives), 0);
        assert forall|q: int| 0 <= q < objectives.len() implies float::finite(
            #[trigger] objectives[q],
        ) by {
            assert(!generation::not_finite(objectives)(q));
        }
    }
}

/// Parents win tournaments: children that are neither crossed nor mutated are where the winners of two
/// tournaments are, one after the other.
pub proof fn law_parents_win_tournaments<F: ArgminFloat, R: RandomSource>(
    settings: NsgaII<F, R>,
    population: Seq<Individual<Vec<F>, F>>,
    words: Map<nat, u64>,
)
    requires
        settings.mutation_probability.spec_widen().spec_less(float::zero()),
        ({
            let after_a = selection::tournament::<R, Vec<F>, F>(population, words).1;
            let after_b = selection::tournament::<R, Vec<F>, F>(population, after_a).1;
            settings.crossover_probability.spec_widen().spec_less(random::unit_at(after_b, 0))
        }),
    ensures
        ({
            let (a, after_a) = selection::tournament::<R, Vec<F>, F>(population, words);
            let b = selection::tournament::<R, Vec<F>, F>(population, after_a).0;
            let children = generation::litter(settings, population, words).0;
            &&& children.0 == population[a as int].position@
            &&& children.1 == population[b as int].position@
        }),
{
    let (a, after_a) = selection::tournament::<R, Vec<F>, F>(population, words);
    let (b, after_b) = selection::tournament::<R, Vec<F>, F>(population, after_a);
    let (x, y) = (population[a as int].position@, population[b as int].position@);
    let crossed = random::ahead(after_b, 1);
    let probability = settings.mutation_probability;
    lemma_never_mutated(settings.bounds@, probability, settings.mutation_eta, x, crossed);
    let mutated = random::ahead(
        crossed,
        variation::mutation_draws(probability, crossed, x.len()),
    );
    lemma_never_mutated(settings.bounds@, probability, settings.mutation_eta, y, mutated);
}

proof fn lemma_never_mutated<F: ArgminFloat>(
    bounds: Seq<(F, F)>,
    probability: F,
    eta: F,
    x: Seq<F>,
    words: Map<nat, u64>,
)
    requires
        probability.spec_widen().spec_less(float::zero()),
    ensures
        variation::mutation(bounds, probability, eta, x, words) == x,
{
    let y = variation::mutation(bounds, probability, eta, x, words);
    assert forall|i: int| 0 <= i < x.len() implies #[trigger] y[i] == x[i] by {
        let d = variation::mutation_draws(probability, words, i as nat);
        let t: F::Wide = random::unit_at(words, d);
        random::law_unit_at::<F::Wide>(words, d);
        random::law_unit_within::<F>(t);
        F::Wide::order_laws(probability.spec_widen(), float::zero(), t);
    }
    assert(y =~= x);
}

/// A random first generation has what a further generation needs, as long as the problem always
/// answers with as many objectives as it has.
pub proof fn law_random_generation_is_generation<F: ArgminFloat, O: MultiObjectiveCostFunction<F>>(
    problem: O,
    bounds: Seq<(F, F)>,
    population: Seq<Individual<Vec<F>, F>>,
)
    requires
        population.len() > 0,
        forall|i: int|
            0 <= i < population.len() ==> generation::is_random_newcomer(
                problem,
                bounds,
                #[trigger] population[i],
            ),
        forall|position: Seq<F>, objectives: Seq<F>| #[trigger]
            problem.may_score(position, Ok::<Seq<F>, ErrorView>(objectives)) ==> objectives.len()
                == problem.objective_count(),
    ensures
        generation::is_generation(problem, bounds, population),
{
}

/// In a population that is found to be sound, everyone has a position within the bounds and as many
/// finite objectives as the problem has.
pub proof fn law_sound_population_within<F: Real>(
    population: Seq<Individual<Vec<F>, F>>,
    num_objectives: nat,
    bounds: Seq<(F, F)>,
    i: int,
)
    requires
        generation::population_fault(population, num_objectives, bounds, 0) is None,
        0 <= i < population.len(),
    ensures
        population[i].objectives@.len() == num_objectives,
        population[i].position@.len() == bounds.len(),
        forall|k: int|
            0 <= k < num_objectives ==> float::finite(#[trigger] population[i].objectives@[k]),
        forall|d: int|
            0 <= d < bounds.len() ==> !(#[trigger] population[i].position@[d]).spec_less(bounds[d].0)
                && !bounds[d].1.spec_less(population[i].position@[d]),
{
    lemma_everyone_sound(population, num_objectives, bounds, 0, i);
    let (position, objectives) = (population[i].position@, population[i].objectives@);
    lemma_first_none(objectives.len(), generation::not_finite(objectives), 0);
    lemma_first_none(position.len(), generation::outside(position, bounds), 0);
    assert forall|k: int| 0 <= k < num_objectives implies float::finite(
        #[trigger] population[i].objectives@[k],
    ) by {
        assert(!generation::not_finite(objectives)(k));
    }
    assert forall|d: int| 0 <= d < bounds.len() implies !(
    #[trigger] population[i].position@[d]).spec_less(bounds[d].0) && !bounds[d].1.spec_less(
        population[i].position@[d],
    ) by {
        assert(!generation::outside(position, bounds)(d));
    }
}

/// A population is found to be sound if everyone has a position within the bounds and as many finite
/// objectives as the problem has.
pub proof fn law_sound_population_is_accepted<F: Real>(
    population: Seq<Individual<Vec<F>, F>>,
    num_objectives: nat,
    bounds: Seq<(F, F)>,
    from: int,
)
    requires
        0 <= from,
        forall|i: int|
            0 <= i < population.len() ==> (#[trigger] population[i]).objectives@.len()
                == num_objectives && population[i].position@.len() == bounds.len(),
        forall|i: int, k: int|
            0 <= i < population.len() && 0 <= k < num_objectives ==> float::finite(
                #[trigger] population[i].objectives@[k],
            ),
        forall|i: int, d: int|
            0 <= i < population.len() && 0 <= d < bounds.len() ==> !(
            #[trigger] population[i].position@[d]).spec_less(bounds[d].0) && !bounds[d].1.spec_less(
                population[i].position@[d],
            ),
    ensures
        generation::population_fault(population, num_objectives, bounds, from) is None,
    decreases population.len() - from,
{
    if from < population.len() {
        let (position, objectives) = (population[from].position@, population[from].objectives@);
        assert(population[from].objectives@.len() == num_objectives);
        lemma_first_some(objectives.len(), generation::not_finite(objectives), 0);
        lemma_first_some(position.len(), generation::outside(position, bounds), 0);
        law_sound_population_is_accepted(population, num_objectives, bounds, from + 1);
    }
}

proof fn lemma_first_some(n: nat, p: spec_fn(int) -> bool, i: int)
    requires
        0 <= i,
    ensures
        counting::first(n, p, i) matches Some(k) ==> i <= k < n && p(k as int),
    decreases n - i,
{
    if i < n && !p(i) {
        lemma_first_some(n, p, i + 1);
    }
}

proof fn lemma_everyone_sound<F: Real>(
    population: Seq<Individual<Vec<F>, F>>,
    num_objectives: nat,
    bounds: Seq<(F, F)>,
    from: int,
    i: int,
)
    requires
        generation::population_fault(population, num_objectives, bounds, from) is None,
        0 <= from <= i < population.len(),
    ensures
        generation::individual_fault(
            i as nat,
            population[i].position@,
            population[i].objectives@,
            num_objectives,
            bounds,
        ) is None,
    decreases i - from,
{
    if from < i {
        lemma_everyone_sound(population, num_objectives, bounds, from + 1, i);
    }
}

proof fn lemma_first_none(n: nat, p: spec_fn(int) -> bool, i: int)
    ensures
        counting::first(n, p, i) is None ==> forall|k: int| i <= k < n ==> !#[trigger] p(k),
    decreases n - i,
{
    if i < n && !p(i) {
        lemma_first_none(n, p, i + 1);
    }
}

} // verus!
