//! Why the best values of all the objectives survive.

use crate::error::ErrorView;
use crate::exact;
use crate::exact::Reading;
use crate::float;
use crate::float::{ArgminFloat, Real};
use crate::nsgaii::crowding;
use crate::nsgaii::dominance;
use crate::nsgaii::elitism;
use crate::nsgaii::generation;
use crate::nsgaii::individual;
use crate::nsgaii::individual::Individual;
use crate::nsgaii::selection;
use crate::nsgaii::solver::NsgaII;
use crate::nsgaii::sorting;
use crate::ordering;
use crate::problem::MultiObjectiveCostFunction;
use crate::random::RandomSource;
use vstd::prelude::*;

verus! {

/// Whether all objective vectors have `m` finite components, and all differences between them are
/// finite, too.
pub open spec fn are_measurable<F: Real>(objectives: Seq<Seq<F>>, m: nat) -> bool {
    &&& forall|i: int| 0 <= i < objectives.len() ==> (#[trigger] objectives[i]).len() == m
    &&& forall|i: int, k: int|
        0 <= i < objectives.len() && 0 <= k < m ==> float::finite(#[trigger] objectives[i][k])
    &&& forall|i: int, j: int, k: int|
        0 <= i < objectives.len() && 0 <= j < objectives.len() && 0 <= k < m ==> float::finite(
            (#[trigger] objectives[i][k]).spec_minus(#[trigger] objectives[j][k]),
        )
}

/// Whether `front` refers to some of the individuals, each once.
pub open spec fn is_selection<F>(objectives: Seq<Seq<F>>, front: Seq<usize>) -> bool {
    &&& front.len() > 0
    &&& front.no_duplicates()
    &&& forall|u: int| 0 <= u < front.len() ==> (#[trigger] front[u]) < objectives.len()
}

/// The individuals on `front` in the order of objective `q`.
pub open spec fn order_of<F: Real>(objectives: Seq<Seq<F>>, q: int, front: Seq<usize>) -> Seq<usize> {
    ordering::sorted(crowding::by_objective(objectives, q), front)
}

/// Those with the least and the greatest values of the first `m` objectives.
pub open spec fn ends<F: Real>(objectives: Seq<Seq<F>>, m: nat, front: Seq<usize>) -> Seq<usize> {
    Seq::new(
        2 * m,
        |x: int|
            if x % 2 == 0 {
                order_of(objectives, x / 2, front)[0]
            } else {
                order_of(objectives, x / 2, front).last()
            },
    )
}

/// The individuals on a front, in the order of an objective, have values that do not fall.
proof fn lemma_order<F: Real>(objectives: Seq<Seq<F>>, m: nat, q: int, front: Seq<usize>)
    requires
        are_measurable(objectives, m),
        is_selection(objectives, front),
        0 <= q < m,
    ensures
        is_selection(objectives, order_of(objectives, q, front)),
        order_of(objectives, q, front).len() == front.len(),
        forall|j: usize| #[trigger]
            order_of(objectives, q, front).contains(j) <==> front.contains(j),
        forall|a: int, b: int|
            0 <= a <= b < front.len() ==> float::at_most(
                objectives[#[trigger] order_of(objectives, q, front)[a] as int][q],
                objectives[#[trigger] order_of(objectives, q, front)[b] as int][q],
            ),
{
    let before = crowding::by_objective(objectives, q);
    let order = order_of(objectives, q, front);
    ordering::law_sorted_is_permutation(before, front);
    front.lemma_multiset_has_no_duplicates();
    order.lemma_multiset_has_no_duplicates_conv();
    assert forall|u: int| 0 <= u < order.len() implies (#[trigger] order[u]) < objectives.len() by {
        assert(order.contains(order[u]));
    }
    assert(ordering::is_ordered_by(before, front)) by {
        assert forall|a: usize| front.contains(a) implies !#[trigger] before(a, a) by {
            F::order_laws(objectives[a as int][q], objectives[a as int][q], objectives[a as int][q]);
        }
        assert forall|a: usize, b: usize, c: usize|
            front.contains(a) && front.contains(b) && front.contains(c) && #[trigger] before(a, b)
                && #[trigger] before(b, c) implies before(a, c) by {
            F::order_laws(objectives[a as int][q], objectives[b as int][q], objectives[c as int][q]);
        }
        assert forall|a: usize, b: usize, c: usize|
            front.contains(a) && front.contains(b) && front.contains(c) && #[trigger] before(a, c)
                && !before(a, b) implies #[trigger] before(b, c) by {
            F::order_laws(objectives[b as int][q], objectives[a as int][q], objectives[c as int][q]);
        }
    }
    ordering::law_sorted_in_order(before, front);
    assert forall|a: int, b: int| 0 <= a <= b < front.len() implies float::at_most(
        objectives[#[trigger] order[a] as int][q],
        objectives[#[trigger] order[b] as int][q],
    ) by {
        let (x, y) = (objectives[order[a] as int][q], objectives[order[b] as int][q]);
        F::order_laws(x, y, x);
    }
}

/// What an objective adds to a distance lies between zero and one.
proof fn lemma_gain<F: ArgminFloat>(
    objectives: Seq<Seq<F>>,
    m: nat,
    q: int,
    front: Seq<usize>,
    p: int,
)
    requires
        are_measurable(objectives, m),
        is_selection(objectives, front),
        0 <= q < m,
        1 <= p < front.len() - 1,
    ensures
        float::at_most(
            float::zero(),
            crowding::gain(objectives, q, order_of(objectives, q, front), p),
        ),
        float::at_most(
            crowding::gain(objectives, q, order_of(objectives, q, front), p),
            float::one(),
        ),
{
    lemma_order(objectives, m, q, front);
    let order = order_of(objectives, q, front);
    let low = objectives[order[0] as int][q];
    let high = objectives[order.last() as int][q];
    let a = objectives[order[p - 1] as int][q];
    let b = objectives[order[p + 1] as int][q];
    F::constant_laws();
    F::difference_laws(low, high, a, b);
    if !high.spec_minus(low).spec_magnitude().spec_less(F::spec_epsilon()) {
        F::quotient_laws(b.spec_minus(a), high.spec_minus(low));
    }
}

/// The distances of the individuals between the ends have had their gain, unless they are infinite.
proof fn lemma_spread_between<F: Real>(
    objectives: Seq<Seq<F>>,
    q: int,
    order: Seq<usize>,
    distances: Seq<F>,
    p: int,
    t: int,
)
    requires
        order.no_duplicates(),
        forall|u: int| 0 <= u < order.len() ==> (#[trigger] order[u]) < distances.len(),
        p <= order.len(),
        0 <= t < order.len(),
    ensures
        crowding::spread_between(objectives, q, order, distances, p).len() == distances.len(),
        crowding::spread_between(objectives, q, order, distances, p)[order[t] as int] == if 1 <= t
            < p && !float::infinite(distances[order[t] as int]) {
            distances[order[t] as int].spec_plus(crowding::gain(objectives, q, order, t))
        } else {
            distances[order[t] as int]
        },
    decreases p,
{
    if p > 1 {
        lemma_spread_between(objectives, q, order, distances, p - 1, t);
        lemma_spread_between(objectives, q, order, distances, p - 1, p - 1);
    }
}

/// The distances of those with the least and the greatest value of one of the first `q` objectives
/// are infinite.
proof fn lemma_ends_are_infinite<F: Real>(
    objectives: Seq<Seq<F>>,
    m: nat,
    q: nat,
    front: Seq<usize>,
    distances: Seq<F>,
    x: int,
)
    requires
        are_measurable(objectives, m),
        is_selection(objectives, front),
        distances.len() == objectives.len(),
        q <= m,
        0 <= x < 2 * q,
    ensures
        crowding::crowding(objectives, q, front, distances).len() == distances.len(),
        crowding::crowding(objectives, q, front, distances)[ends(objectives, q, front)[x] as int]
            == F::spec_infinity(),
    decreases q,
{
    let z = q - 1;
    let j = ends(objectives, q, front)[x];
    let sofar = crowding::crowding(objectives, z as nat, front, distances);
    lemma_order(objectives, m, x / 2, front);
    lemma_order(objectives, m, z, front);
    lemma_length(objectives, z as nat, front, distances);
    lemma_length(objectives, q, front, distances);
    let order = order_of(objectives, z, front);
    assert(front.contains(j)) by {
        let other = order_of(objectives, x / 2, front);
        assert(other.contains(j));
    }
    assert(order.contains(j));
    let t = choose|t: int| 0 <= t < order.len() && order[t] == j;
    let set = sofar.update(order[0] as int, F::spec_infinity()).update(
        order.last() as int,
        F::spec_infinity(),
    );
    F::order_laws(F::spec_infinity(), F::spec_infinity(), F::spec_infinity());
    if x < 2 * z {
        lemma_ends_are_infinite(objectives, m, z as nat, front, distances, x);
        assert(ends(objectives, z as nat, front)[x] == j);
    }
    assert(set[j as int] == F::spec_infinity());
    lemma_spread_between(objectives, z, order, set, order.len() - 1, t);
}

/// There are as many distances after the calculation as before.
proof fn lemma_length<F: Real>(
    objectives: Seq<Seq<F>>,
    q: nat,
    front: Seq<usize>,
    distances: Seq<F>,
)
    requires
        is_selection(objectives, front),
        distances.len() == objectives.len(),
    ensures
        crowding::crowding(objectives, q, front, distances).len() == distances.len(),
    decreases q,
{
    if q > 0 {
        lemma_length(objectives, (q - 1) as nat, front, distances);
        let sofar = crowding::crowding(objectives, (q - 1) as nat, front, distances);
        crowding::lemma_spread_length(objectives, q - 1, front, sofar);
    }
}

/// The distance of everyone else on the front lies between zero and the number of objectives.
proof fn lemma_others_are_finite<F: ArgminFloat>(
    objectives: Seq<Seq<F>>,
    m: nat,
    q: nat,
    front: Seq<usize>,
    distances: Seq<F>,
    j: usize,
)
    requires
        are_measurable(objectives, m),
        is_selection(objectives, front),
        distances.len() == objectives.len(),
        objectives.len() <= usize::MAX,
        q <= m <= i64::MAX,
        front.contains(j),
        !ends(objectives, q, front).contains(j),
    ensures
        ({
            let d = crowding::crowding(objectives, q, front, distances)[j as int];
            &&& float::at_most(float::zero(), d)
            &&& float::at_most(d, F::spec_from_u64(q as u64))
            &&& float::finite(d)
        }),
    decreases q,
{
    F::constant_laws();
    lemma_length(objectives, q, front, distances);
    let d = crowding::crowding(objectives, q, front, distances)[j as int];
    if q > 0 {
        let z = q - 1;
        let sofar = crowding::crowding(objectives, z as nat, front, distances);
        assert forall|x: int| 0 <= x < 2 * z implies #[trigger] ends(
            objectives,
            z as nat,
            front,
        )[x] != j by {
            assert(ends(objectives, q, front)[x] == ends(objectives, z as nat, front)[x]);
        }
        lemma_others_are_finite(objectives, m, z as nat, front, distances, j);
        lemma_length(objectives, z as nat, front, distances);
        lemma_order(objectives, m, z, front);
        let order = order_of(objectives, z, front);
        assert(order.contains(j));
        let t = choose|t: int| 0 <= t < order.len() && order[t] == j;
        assert(ends(objectives, q, front)[2 * z] == order[0]);
        assert(ends(objectives, q, front)[2 * z + 1] == order.last());
        let set = sofar.update(order[0] as int, F::spec_infinity()).update(
            order.last() as int,
            F::spec_infinity(),
        );
        lemma_spread_between(objectives, z, order, set, order.len() - 1, t);
        lemma_gain(objectives, m, z, front, t);
        F::counting_laws(
            z as u64,
            sofar[j as int],
            crowding::gain(objectives, z, order, t),
        );
    }
    let top = F::spec_from_u64(q as u64);
    if q > 0 {
        let (least, most) = (F::spec_neg_infinity(), F::spec_infinity());
        F::order_laws(d, most, top);
        F::order_laws(most, d, top);
        F::order_laws(top, d, most);
        F::order_laws(d, top, most);
        F::order_laws(float::zero(), d, least);
        F::order_laws(d, least, d);
    }
}

/// Of the individuals on a front, the one with the least and the one with the greatest value of each
/// objective become infinitely distant.
pub proof fn law_ends_are_infinitely_distant<P, F: Real>(
    population: Seq<Individual<P, F>>,
    front: Seq<usize>,
    m: nat,
    q: int,
)
    requires
        are_measurable(individual::objectives_of(population), m),
        is_selection(individual::objectives_of(population), front),
        0 <= q < m,
    ensures
        ({
            let objectives = individual::objectives_of(population);
            let order = order_of(objectives, q, front);
            let after = crowding::crowded(population, front);
            &&& front.contains(order[0]) && front.contains(order.last())
            &&& after[order[0] as int].crowding_distance == F::spec_infinity()
            &&& after[order.last() as int].crowding_distance == F::spec_infinity()
            &&& forall|u: int|
                0 <= u < front.len() ==> float::at_most(
                    objectives[order[0] as int][q],
                    objectives[#[trigger] front[u] as int][q],
                ) && float::at_most(
                    objectives[front[u] as int][q],
                    objectives[order.last() as int][q],
                )
        }),
{
    let objectives = individual::objectives_of(population);
    let distances = crowding::distances_of(population);
    let order = order_of(objectives, q, front);
    lemma_order(objectives, m, q, front);
    assert(order.contains(order[0]) && order.contains(order.last()));
    lemma_ends_are_infinite(objectives, m, m, front, distances, 2 * q);
    lemma_ends_are_infinite(objectives, m, m, front, distances, 2 * q + 1);
    assert(ends(objectives, m, front)[2 * q] == order[0]);
    assert(ends(objectives, m, front)[2 * q + 1] == order.last());
    assert forall|u: int| 0 <= u < front.len() implies float::at_most(
        objectives[order[0] as int][q],
        objectives[#[trigger] front[u] as int][q],
    ) && float::at_most(
        objectives[front[u] as int][q],
        objectives[order.last() as int][q],
    ) by {
        assert(order.contains(front[u]));
        let t = choose|t: int| 0 <= t < order.len() && order[t] == front[u];
        assert(order[0] == order[0] && order[t] == front[u]);
    }
}

/// Everyone on a front has a distance that is not negative. Whoever has neither the least nor the
/// greatest value of any objective has a finite one, which is at most the number of objectives.
pub proof fn law_distances_are_not_negative<P, F: ArgminFloat>(
    population: Seq<Individual<P, F>>,
    front: Seq<usize>,
    m: nat,
    u: int,
)
    requires
        population.len() <= usize::MAX,
        are_measurable(individual::objectives_of(population), m),
        is_selection(individual::objectives_of(population), front),
        m <= i64::MAX,
        0 <= u < front.len(),
    ensures
        ({
            let objectives = individual::objectives_of(population);
            let d = crowding::crowded(population, front)[front[u] as int].crowding_distance;
            &&& float::at_most(float::zero(), d)
            &&& !ends(objectives, m, front).contains(front[u]) ==> float::finite(d)
                && float::at_most(d, F::spec_from_u64(m as u64))
        }),
{
    let objectives = individual::objectives_of(population);
    let distances = crowding::distances_of(population);
    let all = ends(objectives, m, front);
    if all.contains(front[u]) {
        let x = choose|x: int| 0 <= x < all.len() && all[x] == front[u];
        lemma_ends_are_infinite(objectives, m, m, front, distances, x);
        F::constant_laws();
        F::order_laws(float::zero(), F::spec_infinity(), float::zero());
    } else {
        lemma_others_are_finite(objectives, m, m, front, distances, front[u]);
    }
}

/// Whether there is no range of objective `q` to speak of.
pub open spec fn is_flat<F: Real>(objectives: Seq<Seq<F>>, q: int, front: Seq<usize>) -> bool {
    let order = order_of(objectives, q, front);
    objectives[order.last() as int][q].spec_minus(
        objectives[order[0] as int][q],
    ).spec_magnitude().spec_less(F::spec_epsilon())
}

/// Crowding distances measure how far apart the neighbours are: each objective adds to the distance of
/// an individual between the ends the gap between the next lesser and the next greater value on the
/// front, as a share of the whole range, or `1e-10` where there is no range to speak of.
pub proof fn law_distance_measures_the_gap<F: Real>(
    reading: Reading<F>,
    objectives: Seq<Seq<F>>,
    m: nat,
    q: nat,
    front: Seq<usize>,
    distances: Seq<F>,
    t: int,
)
    requires
        reading.is_ideal(),
        are_measurable(objectives, m),
        is_selection(objectives, front),
        distances.len() == objectives.len(),
        q < m,
        0 < t < front.len() - 1,
        float::finite(
            crowding::crowding(objectives, q, front, distances)[order_of(
                objectives,
                q as int,
                front,
            )[t] as int],
        ),
        is_flat(objectives, q as int, front) || reading.at(
            objectives[order_of(objectives, q as int, front)[0] as int][q as int],
        ) < reading.at(
            objectives[order_of(objectives, q as int, front).last() as int][q as int],
        ),
    ensures
        ({
            let order = order_of(objectives, q as int, front);
            let j = order[t] as int;
            let before = reading.at(crowding::crowding(objectives, q, front, distances)[j]);
            let (least, most) = (
                reading.at(objectives[order[0] as int][q as int]),
                reading.at(objectives[order.last() as int][q as int]),
            );
            let (previous, next) = (
                reading.at(objectives[order[t - 1] as int][q as int]),
                reading.at(objectives[order[t + 1] as int][q as int]),
            );
            &&& (reading.value)(
                crowding::crowding(objectives, q + 1, front, distances)[j],
            ) matches Some(after) && if is_flat(objectives, q as int, front) {
                after - before == 1 as real / exact::power_of_ten(10)
            } else {
                (after - before) * (most - least) == next - previous
            }
            &&& least <= previous <= reading.at(objectives[j][q as int]) <= next <= most
            &&& forall|i: usize|
                front.contains(i) && i != j ==> (reading.at(
                    #[trigger] objectives[i as int][q as int],
                ) <= previous || reading.at(objectives[i as int][q as int]) >= next)
        }),
{
    let z = q as int;
    let order = order_of(objectives, z, front);
    let j = order[t] as int;
    lemma_order(objectives, m, z, front);
    lemma_length(objectives, q, front, distances);
    let sofar = crowding::crowding(objectives, q, front, distances);
    let set = sofar.update(order[0] as int, F::spec_infinity()).update(
        order.last() as int,
        F::spec_infinity(),
    );
    assert(order[0] != order[t]);
    assert(set[j] == sofar[j]);
    lemma_spread_between(objectives, z, order, set, order.len() - 1, t);
    exact::lemma_at(reading, sofar[j]);
    let (low, high) = (objectives[order[0] as int][z], objectives[order.last() as int][z]);
    let (a, b) = (objectives[order[t - 1] as int][z], objectives[order[t + 1] as int][z]);
    let c = objectives[j][z];
    lemma_reading_order(reading, low, a);
    lemma_reading_order(reading, a, c);
    lemma_reading_order(reading, c, b);
    lemma_reading_order(reading, b, high);
    let (l, h) = (reading.at(low), reading.at(high));
    let (x, y) = (reading.at(a), reading.at(b));
    exact::lemma_ideal(reading, high, low, h, l);
    exact::lemma_ideal(reading, b, a, y, x);
    let gain = crowding::gain(objectives, z, order, t);
    let range = high.spec_minus(low);
    if range.spec_magnitude().spec_less(F::spec_epsilon()) {
        exact::lemma_decimal(reading, 1, 10);
        exact::lemma_ideal(
            reading,
            sofar[j],
            gain,
            reading.at(sofar[j]),
            1 as real / exact::power_of_ten(10),
        );
    } else {
        exact::lemma_ideal(reading, b.spec_minus(a), range, y - x, h - l);
        let g = (y - x) / (h - l);
        exact::lemma_ideal(reading, sofar[j], gain, reading.at(sofar[j]), g);
        assert(g * (h - l) == y - x) by (nonlinear_arith)
            requires
                g == (y - x) / (h - l),
                h > l,
        ;
    }
    assert forall|i: usize| front.contains(i) && i != j implies (reading.at(
        #[trigger] objectives[i as int][z],
    ) <= x || reading.at(objectives[i as int][z]) >= y) by {
        assert(order.contains(i));
        let k = choose|k: int| 0 <= k < order.len() && order[k] == i;
        let o = objectives[order[k] as int][z];
        if k < t {
            lemma_reading_order(reading, o, a);
        } else {
            lemma_reading_order(reading, b, o);
        }
    }
}

proof fn lemma_reading_order<F: Real>(reading: Reading<F>, a: F, b: F)
    requires
        reading.is_sound(),
        float::finite(a),
        float::finite(b),
    ensures
        reading.reads(a, reading.at(a)),
        reading.reads(b, reading.at(b)),
        float::at_most(a, b) <==> reading.at(a) <= reading.at(b),
{
    exact::lemma_at(reading, a);
    exact::lemma_at(reading, b);
    exact::lemma_order(reading, a, b, reading.at(a), reading.at(b));
}

/// Somebody on the first front has no greater value of an objective than a given individual.
proof fn lemma_first_front_leads<F: Real>(
    objectives: Seq<Seq<F>>,
    m: nat,
    k: int,
    i: int,
    r: nat,
) -> (j: int)
    requires
        are_measurable(objectives, m),
        0 <= k < m,
        0 <= i < objectives.len(),
        dominance::front_of(objectives, i) == Some(r),
    ensures
        0 <= j < objectives.len(),
        dominance::front_of(objectives, j) == Some(0nat),
        float::at_most(objectives[j][k], objectives[i][k]),
    decreases r,
{
    let value = objectives[i][k];
    F::order_laws(value, value, value);
    if r == 0 {
        i
    } else {
        dominance::law_first_front(objectives, i);
        let h = choose|h: int|
            0 <= h < objectives.len() && #[trigger] dominance::dominating(
                objectives[h],
                objectives[i],
            );
        dominance::law_dominator_on_earlier_front(objectives, h, i, r);
        let s = dominance::front_of(objectives, h)->0;
        let j = lemma_first_front_leads(objectives, m, k, h, s);
        let between = objectives[h][k];
        assert(!value.spec_less(between));
        F::order_laws(between, value, between);
        F::order_laws(objectives[j][k], between, value);
        j
    }
}

/// Who survives from the first fronts survives from more of them.
proof fn lemma_survivors_stay<P, F: Real>(
    population: Seq<Individual<P, F>>,
    size: nat,
    r: nat,
    s: nat,
    u: int,
)
    requires
        r <= s,
        0 <= u < selection::survivors(population, size, r).0.len(),
    ensures
        u < selection::survivors(population, size, s).0.len(),
        selection::survivors(population, size, s).0[u] == selection::survivors(
            population,
            size,
            r,
        ).0[u],
    decreases s,
{
    if r < s {
        lemma_survivors_stay(population, size, r, (s - 1) as nat, u);
    }
}

/// Of those on a front, the ones that are most distant include the one with the least value of an
/// objective, as long as there is room for two for each objective.
proof fn lemma_end_is_distant<F: ArgminFloat>(
    objectives: Seq<Seq<F>>,
    m: nat,
    front: Seq<usize>,
    distances: Seq<F>,
    before: spec_fn(usize, usize) -> bool,
    k: int,
) -> (v: int)
    requires
        are_measurable(objectives, m),
        is_selection(objectives, front),
        distances.len() == objectives.len(),
        objectives.len() <= usize::MAX,
        m <= i64::MAX,
        0 <= k < m,
        forall|a: usize, b: usize|
            a < objectives.len() && b < objectives.len() ==> #[trigger] before(a, b)
                == crowding::crowding(objectives, m, front, distances)[b as int].spec_less(
                crowding::crowding(objectives, m, front, distances)[a as int],
            ),
    ensures
        0 <= v < 2 * m,
        v < front.len(),
        ordering::sorted(before, front)[v] == order_of(objectives, k, front)[0],
{
    let result = crowding::crowding(objectives, m, front, distances);
    let all = ends(objectives, m, front);
    let sorted = ordering::sorted(before, front);
    let most = F::spec_infinity();
    assert forall|a: usize| front.contains(a) implies if all.contains(a) {
        result[a as int] == most
    } else {
        float::finite(result[a as int])
    } by {
        if all.contains(a) {
            let x = choose|x: int| 0 <= x < all.len() && all[x] == a;
            lemma_ends_are_infinite(objectives, m, m, front, distances, x);
        } else {
            lemma_others_are_finite(objectives, m, m, front, distances, a);
        }
    }
    F::order_laws(most, most, most);
    assert(ordering::is_ordered_by(before, front)) by {
        assert forall|a: usize| front.contains(a) implies !#[trigger] before(a, a) by {
            F::order_laws(result[a as int], most, most);
        }
        assert forall|a: usize, b: usize, c: usize|
            front.contains(a) && front.contains(b) && front.contains(c) && #[trigger] before(a, b)
                && #[trigger] before(b, c) implies before(a, c) by {
            F::order_laws(result[c as int], result[b as int], result[a as int]);
        }
        assert forall|a: usize, b: usize, c: usize|
            front.contains(a) && front.contains(b) && front.contains(c) && #[trigger] before(a, c)
                && !before(a, b) implies #[trigger] before(b, c) by {
            F::order_laws(result[c as int], result[a as int], result[b as int]);
            F::order_laws(result[b as int], result[a as int], result[c as int]);
            F::order_laws(result[a as int], result[b as int], result[c as int]);
        }
    }
    ordering::law_sorted_in_order(before, front);
    ordering::law_sorted_is_permutation(before, front);
    front.lemma_multiset_has_no_duplicates();
    sorted.lemma_multiset_has_no_duplicates_conv();
    lemma_order(objectives, m, k, front);
    let order = order_of(objectives, k, front);
    assert(order.contains(order[0]));
    assert(all[2 * k] == order[0]);
    assert(all.contains(order[0]));
    assert(sorted.contains(order[0]));
    let v = choose|v: int| 0 <= v < sorted.len() && sorted[v] == order[0];
    let first = sorted.take(v + 1);
    assert forall|a: usize| first.contains(a) implies all.contains(a) by {
        let x = choose|x: int| 0 <= x < first.len() && first[x] == a;
        assert(sorted.contains(sorted[x]));
        if x < v && !all.contains(a) {
            assert(!before(sorted[v], sorted[x]));
            F::order_laws(result[a as int], most, result[a as int]);
        }
    }
    assert(first.no_duplicates());
    first.unique_seq_to_set();
    all.lemma_cardinality_of_set();
    assert(first.to_set().subset_of(all.to_set()));
    vstd::set_lib::lemma_len_subset(first.to_set(), all.to_set());
    v
}

/// The best values survive: wherever there is room for two individuals for each objective, and all
/// objectives and their differences are finite, somebody survives who has no greater a value of an
/// objective than a given individual.
pub proof fn law_least_objective_survives<P, F: ArgminFloat>(
    population: Seq<Individual<P, F>>,
    size: nat,
    m: nat,
    k: int,
    i: int,
)
    requires
        population.len() <= usize::MAX,
        are_measurable(individual::objectives_of(population), m),
        2 * m <= size <= usize::MAX,
        0 <= k < m,
        0 <= i < population.len(),
    ensures
        exists|u: int|
            0 <= u < elitism::chosen_from(population, size).len() && float::at_most(
                population[#[trigger] elitism::chosen_from(population, size)[u] as int].objectives@[k],
                population[i].objectives@[k],
            ),
{
    let objectives = individual::objectives_of(population);
    let people = sorting::ranked(population);
    let chosen = elitism::chosen_from(population, size);
    let last = selection::max_rank(people, people.len() as int) + 1;
    dominance::law_everyone_on_a_front(objectives, i);
    let r = dominance::front_of(objectives, i)->0;
    let j = lemma_first_front_leads(objectives, m, k, i, r);
    let front = selection::front(people, 0);
    selection::lemma_members(people, 0, people.len() as int);
    assert(people[j].rank == 0);
    assert(front.contains(j as usize));
    let (leader, u) = if front.len() <= size {
        let u = choose|u: int| 0 <= u < front.len() && front[u] == j as usize;
        assert(selection::survivors(people, size, 1).0 =~= front) by {
            reveal_with_fuel(selection::survivors, 2);
        }
        (j, u)
    } else {
        let crowded = crowding::crowded(people, front);
        let before = selection::by_distance(crowded);
        let distances = crowding::distances_of(people);
        assert(individual::objectives_of(people) =~= objectives);
        assert(is_selection(objectives, front));
        lemma_length(objectives, m, front, distances);
        let v = lemma_end_is_distant(objectives, m, front, distances, before, k);
        lemma_order(objectives, m, k, front);
        let order = order_of(objectives, k, front);
        assert(order.contains(j as usize));
        let t = choose|t: int| 0 <= t < order.len() && order[t] == j as usize;
        assert(float::at_most(objectives[order[0] as int][k], objectives[order[t] as int][k]));
        let sorted = ordering::sorted(before, front);
        ordering::law_sorted_is_permutation(before, front);
        assert(selection::survivors(people, size, 1).0 =~= sorted.take(size as int)) by {
            reveal_with_fuel(selection::survivors, 2);
        }
        (order[0] as int, v)
    };
    lemma_survivors_stay(people, size, 1, last, u);
    assert(chosen[u] == leader as usize);
    F::order_laws(objectives[leader][k], objectives[j][k], objectives[i][k]);
}

/// Whether an individual with the objectives `a` may occur: somebody in the population has them, or
/// the problem may answer with them.
pub open spec fn may_occur<F, O: MultiObjectiveCostFunction<F>>(
    problem: O,
    population: Seq<Individual<Vec<F>, F>>,
    a: Seq<F>,
) -> bool {
    ||| exists|i: int| 0 <= i < population.len() && a == (#[trigger] population[i]).objectives@
    ||| exists|position: Seq<F>| #[trigger]
        problem.may_score(position, Ok::<Seq<F>, ErrorView>(a))
}

/// Whether all the objectives that may occur have `m` finite components, and all differences
/// between them are finite, too.
pub open spec fn occur_measurable<F: Real, O: MultiObjectiveCostFunction<F>>(
    problem: O,
    population: Seq<Individual<Vec<F>, F>>,
    m: nat,
) -> bool {
    &&& forall|a: Seq<F>| #[trigger]
        may_occur(problem, population, a) ==> a.len() == m && forall|k: int|
            0 <= k < m ==> float::finite(#[trigger] a[k])
    &&& forall|a: Seq<F>, b: Seq<F>, k: int|
        may_occur(problem, population, a) && may_occur(problem, population, b) && 0 <= k < m
            ==> float::finite((#[trigger] a[k]).spec_minus(#[trigger] b[k]))
}

/// The objectives of a generation and its offspring are measurable.
proof fn lemma_all_measurable<
    F: ArgminFloat,
    R: RandomSource,
    O: MultiObjectiveCostFunction<F>,
>(
    settings: NsgaII<F, R>,
    problem: O,
    population: Seq<Individual<Vec<F>, F>>,
    offspring: Seq<Individual<Vec<F>, F>>,
    m: nat,
)
    requires
        occur_measurable(problem, population, m),
        forall|k: int|
            0 <= k && 2 * k < offspring.len() ==> #[trigger] generation::is_litter(
                settings,
                problem,
                population,
                offspring,
                k,
            ),
    ensures
        are_measurable(individual::objectives_of(population + offspring), m),
{
    let all = population + offspring;
    let objectives = individual::objectives_of(all);
    assert forall|j: int| 0 <= j < all.len() implies may_occur(
        problem,
        population,
        #[trigger] objectives[j],
    ) by {
        if j < population.len() {
            assert(objectives[j] == population[j].objectives@);
        } else {
            let h = j - population.len();
            assert(generation::is_litter(settings, problem, population, offspring, h / 2));
        }
    }
}

/// Whoever dominates an individual of the next generation is in the next generation, too.
pub proof fn law_dominator_survives<
    F: ArgminFloat,
    R: RandomSource,
    O: MultiObjectiveCostFunction<F>,
>(
    settings: NsgaII<F, R>,
    problem: O,
    population: Seq<Individual<Vec<F>, F>>,
    next: Seq<Individual<Vec<F>, F>>,
    m: nat,
    i: int,
    u: int,
)
    requires
        occur_measurable(problem, population, m),
        generation::is_successor(settings, problem, population, next),
        0 <= i < population.len(),
        0 <= u < next.len(),
        dominance::dominating(population[i].objectives@, next[u].objectives@),
    ensures
        exists|v: int| {
            &&& 0 <= v < next.len()
            &&& (#[trigger] next[v]).position@ == population[i].position@
            &&& next[v].objectives@ == population[i].objectives@
        },
{
    let (offspring, after) = choose|
        offspring: Seq<Individual<Vec<F>, F>>,
        after: Seq<Individual<Vec<F>, F>>,
    | #[trigger]
        generation::is_successor_with(settings, problem, population, offspring, after, next);
    let size = settings.population_size as nat;
    let all = population + offspring;
    lemma_all_measurable(settings, problem, population, offspring, m);
    let chosen = elitism::chosen_from(all, size);
    let people = sorting::ranked(all);
    let last = selection::max_rank(people, people.len() as int) + 1;
    elitism::lemma_survivors(people, size, last);
    elitism::lemma_survivors_keep_positions(people, size, last);
    let crowded = selection::survivors(people, size, last).1;
    assert(next[u]@ == crowded[chosen[u] as int]@);
    if !chosen.contains(i as usize) {
        elitism::law_survivors_not_dominated_by_others(all, size, u, i);
    }
    let v = choose|v: int| 0 <= v < chosen.len() && chosen[v] == i as usize;
    assert(next[v]@ == crowded[chosen[v] as int]@);
    assert(next[v].position@ == population[i].position@);
}

/// The least value of every objective never rises from one generation to the next, wherever there
/// is room for two individuals for each objective, and all objectives and their differences are
/// finite.
pub proof fn law_least_objective_never_rises<
    F: ArgminFloat,
    R: RandomSource,
    O: MultiObjectiveCostFunction<F>,
>(
    settings: NsgaII<F, R>,
    problem: O,
    population: Seq<Individual<Vec<F>, F>>,
    next: Seq<Individual<Vec<F>, F>>,
    m: nat,
    k: int,
    i: int,
)
    requires
        occur_measurable(problem, population, m),
        2 * m <= settings.population_size,
        generation::is_successor(settings, problem, population, next),
        0 <= k < m,
        0 <= i < population.len(),
    ensures
        exists|u: int|
            0 <= u < next.len() && float::at_most(
                (#[trigger] next[u]).objectives@[k],
                population[i].objectives@[k],
            ),
{
    let (offspring, after) = choose|
        offspring: Seq<Individual<Vec<F>, F>>,
        after: Seq<Individual<Vec<F>, F>>,
    | #[trigger]
        generation::is_successor_with(settings, problem, population, offspring, after, next);
    let size = settings.population_size as nat;
    let all = population + offspring;
    lemma_all_measurable(settings, problem, population, offspring, m);
    law_least_objective_survives(all, size, m, k, i);
    let chosen = elitism::chosen_from(all, size);
    let u = choose|u: int|
        0 <= u < chosen.len() && float::at_most(
            all[#[trigger] chosen[u] as int].objectives@[k],
            all[i].objectives@[k],
        );
    let people = sorting::ranked(all);
    let last = selection::max_rank(people, people.len() as int) + 1;
    elitism::lemma_survivors(people, size, last);
    elitism::lemma_survivors_keep_positions(people, size, last);
    let crowded = selection::survivors(people, size, last).1;
    assert(next[u]@ == crowded[chosen[u] as int]@);
    assert(next[u].objectives@ == all[chosen[u] as int].objectives@);
}

} // verus!
