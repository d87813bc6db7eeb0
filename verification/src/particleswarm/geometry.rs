//! What the swarm does to the coordinates of its particles, in terms of real numbers.

use crate::exact;
use crate::exact::{Reading, Readings};
use crate::float;
use crate::float::{ArgminFloat, Real};
use crate::ordering;
use crate::particleswarm::initialization;
use crate::particleswarm::initialization::PricedView;
use crate::particleswarm::iteration;
use crate::particleswarm::motion;
use crate::particleswarm::motion::Weights;
use crate::particleswarm::mutation;
use crate::particleswarm::particle::ParticleView;
use crate::particleswarm::position;
use crate::particleswarm::position::Position;
use crate::particleswarm::solver::ParticleSwarm;
use crate::particleswarm::standing;
use crate::particleswarm::standing::StandingView;
use crate::particleswarm::strategy;
use crate::particleswarm::strategy::{
    AccelerationCoefficientStrategy, InertiaWeightStrategy, MutationApplication,
};
use crate::problem::CostFunction;
use crate::random;
use crate::random::RangeSource;
use vstd::prelude::*;

verus! {

/// Whether two points lie opposite to each other: in every coordinate they add up to the sum of the
/// bounds, so that one is as far from the lower bound as the other is from the upper.
pub open spec fn are_opposite<F: Real>(
    reading: Reading<F>,
    low: Seq<F>,
    high: Seq<F>,
    p: Seq<F>,
    q: Seq<F>,
) -> bool {
    &&& p.len() == low.len() && q.len() == low.len() && high.len() == low.len()
    &&& forall|i: int|
        0 <= i < low.len() ==> ((reading.value)(#[trigger] p[i]) matches Some(a) && (reading.value)(
            q[i],
        ) matches Some(b) && (reading.value)(low[i]) matches Some(l) && (reading.value)(
            high[i],
        ) matches Some(h) && a - l == h - b)
}

/// Whether the type can hold the point opposite to `p`.
pub open spec fn can_oppose<F: Real>(
    reading: Reading<F>,
    low: Seq<F>,
    high: Seq<F>,
    p: Seq<F>,
) -> bool {
    &&& reading.is_sound()
    &&& p.len() == low.len() && high.len() == low.len()
    &&& forall|i: int|
        0 <= i < low.len() ==> ((reading.value)(#[trigger] p[i]) matches Some(a) && (reading.value)(
            low[i],
        ) matches Some(l) && (reading.value)(high[i]) matches Some(h) && reading.holds(l + h)
            && reading.holds(l + h - a))
}

/// The opposite of a point lies opposite to it.
pub proof fn law_opposite_mirrors<F: ArgminFloat>(
    reading: Reading<F>,
    low: Seq<F>,
    high: Seq<F>,
    p: Seq<F>,
)
    requires
        can_oppose(reading, low, high, p),
    ensures
        are_opposite(reading, low, high, p, initialization::opposite::<Vec<F>, F>(low, high, p)),
{
    let q = initialization::opposite::<Vec<F>, F>(low, high, p);
    assert forall|i: int| 0 <= i < low.len() implies ((reading.value)(#[trigger] p[i]) matches Some(a)
        && (reading.value)(q[i]) matches Some(b) && (reading.value)(low[i]) matches Some(l) && (
    reading.value)(high[i]) matches Some(h) && a - l == h - b) by {
        let (a, l, h) = (
            (reading.value)(p[i])->0,
            (reading.value)(low[i])->0,
            (reading.value)(high[i])->0,
        );
        exact::lemma_results(reading, low[i], high[i], l, h);
        exact::lemma_results(reading, low[i].spec_plus(high[i]), p[i], l + h, a);
    }
}

/// Whether two points have the same coordinates.
pub open spec fn are_same<F: Real>(p: Seq<F>, q: Seq<F>) -> bool {
    p.len() == q.len() && forall|i: int| 0 <= i < p.len() ==> (#[trigger] p[i]).spec_same(q[i])
}

/// The bounds lie opposite to each other, and the opposite of the opposite is where one started.
pub proof fn law_opposite_exchanges_bounds<F: ArgminFloat>(
    reading: Reading<F>,
    low: Seq<F>,
    high: Seq<F>,
    p: Seq<F>,
)
    requires
        can_oppose(reading, low, high, low),
        can_oppose(reading, low, high, high),
        can_oppose(reading, low, high, p),
        can_oppose(
            reading,
            low,
            high,
            initialization::opposite::<Vec<F>, F>(low, high, p),
        ),
    ensures
        are_same(initialization::opposite::<Vec<F>, F>(low, high, low), high),
        are_same(initialization::opposite::<Vec<F>, F>(low, high, high), low),
        are_same(
            initialization::opposite::<Vec<F>, F>(
                low,
                high,
                initialization::opposite::<Vec<F>, F>(low, high, p),
            ),
            p,
        ),
{
    let q = initialization::opposite::<Vec<F>, F>(low, high, p);
    law_opposite_mirrors(reading, low, high, low);
    law_opposite_mirrors(reading, low, high, high);
    law_opposite_mirrors(reading, low, high, p);
    law_opposite_mirrors(reading, low, high, q);
    lemma_opposite_is_unique(
        reading,
        low,
        high,
        low,
        initialization::opposite::<Vec<F>, F>(low, high, low),
        high,
    );
    lemma_opposite_is_unique(
        reading,
        low,
        high,
        high,
        initialization::opposite::<Vec<F>, F>(low, high, high),
        low,
    );
    lemma_opposite_is_unique(
        reading,
        low,
        high,
        q,
        initialization::opposite::<Vec<F>, F>(low, high, q),
        p,
    );
}

/// A point has one opposite.
proof fn lemma_opposite_is_unique<F: Real>(
    reading: Reading<F>,
    low: Seq<F>,
    high: Seq<F>,
    p: Seq<F>,
    q: Seq<F>,
    r: Seq<F>,
)
    requires
        reading.is_sound(),
        are_opposite(reading, low, high, p, q),
        r.len() == low.len(),
        forall|i: int|
            0 <= i < low.len() ==> ((reading.value)(#[trigger] r[i]) matches Some(c) && (
            reading.value)(p[i])->0 + c == (reading.value)(low[i])->0 + (reading.value)(high[i])->0),
    ensures
        are_same(q, r),
{
    assert forall|i: int| 0 <= i < q.len() implies (#[trigger] q[i]).spec_same(r[i]) by {
        assert((reading.value)(p[i]) is Some);
        let (b, c) = ((reading.value)(q[i])->0, (reading.value)(r[i])->0);
        exact::lemma_order(reading, q[i], r[i], b, c);
    }
}

/// Where the particles are put by opposition, each is at one of the places where they would start or
/// opposite to one of these.
pub proof fn law_opposition_opposes<O: CostFunction<Vec<F>, F>, F: ArgminFloat, R>(
    reading: Reading<F>,
    problem: O,
    swarm: ParticleSwarm<Vec<F>, F, R>,
    starts: Seq<Seq<F>>,
    costs: Seq<F>,
    opposite_costs: Seq<F>,
    positions: Seq<Seq<F>>,
    j: int,
)
    requires
        initialization::is_choice::<O, Vec<F>, F, R>(
            problem,
            swarm,
            starts,
            costs,
            opposite_costs,
            positions,
        ),
        starts.len() == swarm.num_particles,
        forall|k: int|
            0 <= k < starts.len() ==> can_oppose(
                reading,
                swarm.bounds.0@,
                swarm.bounds.1@,
                #[trigger] starts[k],
            ),
        0 <= j < swarm.num_particles,
    ensures
        positions.len() == swarm.num_particles,
        exists|k: int|
            0 <= k < starts.len() && (positions[j] == #[trigger] starts[k] || are_opposite(
                reading,
                swarm.bounds.0@,
                swarm.bounds.1@,
                starts[k],
                positions[j],
            )),
{
    let (low, high) = (swarm.bounds.0@, swarm.bounds.1@);
    let others = initialization::opposites::<Vec<F>, F>(low, high, starts);
    let first = initialization::priced(starts, costs);
    let second = initialization::priced(others, opposite_costs);
    let before = initialization::cheaper::<Seq<F>, F>();
    let ranked = ordering::sorted(before, first + second);
    ordering::law_sorted_is_permutation(before, first + second);
    assert(ranked.contains(ranked[j]));
    let k = choose|k: int| 0 <= k < (first + second).len() && (first + second)[k] == ranked[j];
    if k < first.len() {
        assert(positions[j] == starts[k]);
    } else {
        let m = k - first.len();
        assert(positions[j] == others[m]);
        law_opposite_mirrors(reading, low, high, starts[m]);
        assert(starts[m].len() == low.len());
    }
}

/// The positions that are kept are those of the first candidates once these are ranked, and no
/// candidate costs less than one that is ranked before it.
pub proof fn law_cheapest_positions_are_kept<V, F: Real>(candidates: Seq<PricedView<V, F>>, n: nat)
    requires
        n <= candidates.len(),
        forall|k: int| 0 <= k < candidates.len() ==> float::defined(#[trigger] candidates[k].cost),
    ensures
        exists|ranked: Seq<PricedView<V, F>>|
            {
                &&& #[trigger] ranked.to_multiset() == candidates.to_multiset()
                &&& ranked.len() == candidates.len()
                &&& initialization::cheapest(candidates, n).len() == n
                &&& forall|i: int|
                    0 <= i < n ==> #[trigger] initialization::cheapest(candidates, n)[i]
                        == ranked[i].position
                &&& forall|i: int, j: int|
                    0 <= i < j < ranked.len() ==> float::at_most(
                        (#[trigger] ranked[i]).cost,
                        (#[trigger] ranked[j]).cost,
                    )
            },
{
    let before = initialization::cheaper::<V, F>();
    let ranked = ordering::sorted(before, candidates);
    ordering::law_sorted_is_permutation(before, candidates);
    assert(ordering::is_ordered_by(before, candidates)) by {
        assert forall|a: PricedView<V, F>| candidates.contains(a) implies !#[trigger] before(a, a) by {
            F::order_laws(a.cost, a.cost, a.cost);
        }
        assert forall|a: PricedView<V, F>, b: PricedView<V, F>, c: PricedView<V, F>|
            candidates.contains(a) && candidates.contains(b) && candidates.contains(c)
                && #[trigger] before(a, b) && #[trigger] before(b, c) implies before(a, c) by {
            F::order_laws(a.cost, b.cost, c.cost);
        }
        assert forall|a: PricedView<V, F>, b: PricedView<V, F>, c: PricedView<V, F>|
            candidates.contains(a) && candidates.contains(b) && candidates.contains(c)
                && #[trigger] before(a, c) && !before(a, b) implies #[trigger] before(b, c) by {
            F::order_laws(b.cost, a.cost, c.cost);
        }
    }
    ordering::law_sorted_in_order(before, candidates);
    assert forall|i: int, j: int| 0 <= i < j < ranked.len() implies float::at_most(
        (#[trigger] ranked[i]).cost,
        (#[trigger] ranked[j]).cost,
    ) by {
        assert(ranked.contains(ranked[i]) && ranked.contains(ranked[j]));
        assert(!before(ranked[j], ranked[i]));
        F::order_laws(ranked[i].cost, ranked[j].cost, ranked[i].cost);
    }
    assert(ranked.to_multiset() == candidates.to_multiset());
}

/// Whether all the coordinates of a point are finite.
pub open spec fn is_finite<F: Real>(p: Seq<F>) -> bool {
    forall|i: int| 0 <= i < p.len() ==> float::finite(#[trigger] p[i])
}

/// Holding coordinate `i` of a point between two bounds that are in order.
proof fn lemma_held_coordinate<F: ArgminFloat>(
    reading: Reading<F>,
    p: Seq<F>,
    low: Seq<F>,
    high: Seq<F>,
    i: int,
    r: real,
    l: real,
    h: real,
)
    requires
        reading.is_ideal(),
        0 <= i < p.len(),
        low.len() == p.len(),
        high.len() == p.len(),
        reading.reads(p[i], r),
        reading.reads(low[i], l),
        reading.reads(high[i], h),
        l <= h,
    ensures
        reading.reads(
            motion::held::<Vec<F>, F>(p, low, high)[i],
            exact::clamped(r, l, h),
        ),
        motion::held::<Vec<F>, F>(p, low, high).len() == p.len(),
{
    exact::lemma_order(reading, low[i], p[i], l, r);
    exact::lemma_order(reading, p[i], high[i], r, h);
    exact::lemma_order(reading, low[i], high[i], l, h);
}

/// The sample of stratum `i` of `n` lies between `i / n` and `(i + 1) / n` of the way from the lower
/// to the upper bound, in every coordinate: each stratum gets one sample.
pub proof fn law_strata_get_one_sample_each<F: ArgminFloat>(
    readings: Readings<F, F::Wide>,
    low: Seq<F>,
    high: Seq<F>,
    i: nat,
    n: usize,
    chance: F::Wide,
    k: int,
)
    requires
        exact::are_exact::<F>(readings),
        float::finite(chance),
        0 as real <= readings.wide.at(chance) < 1 as real,
        i < n,
        n <= u64::MAX,
        low.len() == high.len(),
        0 <= k < low.len(),
        float::finite(low[k]) && float::finite(high[k]),
        readings.narrow.at(low[k]) < readings.narrow.at(high[k]),
    ensures
        ({
            let p = initialization::interpolated::<Vec<F>, F>(
                low,
                high,
                initialization::stratum::<F>(i, n, chance),
            );
            let (l, h) = (readings.narrow.at(low[k]), readings.narrow.at(high[k]));
            (readings.narrow.value)(p[k]) matches Some(v) && {
                &&& i as real * (h - l) <= n as real * (v - l) < (i as real + 1 as real) * (h - l)
                &&& n as real * (v - l) == (i as real + readings.wide.at(chance)) * (h - l)
            }
        }),
{
    let (narrow, wide) = (readings.narrow, readings.wide);
    exact::lemma_ideal_constants(narrow);
    exact::lemma_at(wide, chance);
    exact::lemma_at(narrow, low[k]);
    exact::lemma_at(narrow, high[k]);
    let c = wide.at(chance);
    assert(wide.reads(chance, c));
    let (l, h) = (narrow.at(low[k]), narrow.at(high[k]));
    let (one, count, index) = (
        float::one::<F>(),
        F::spec_from_u64(n as u64),
        F::spec_from_u64(i as u64),
    );
    let (a, b) = (i as real, n as real);
    assert(narrow.reads(count, b) && narrow.reads(index, a));
    exact::lemma_ideal(narrow, one, count, 1 as real, b);
    let (size, s) = (one.spec_over(count), 1 as real / b);
    exact::lemma_ideal(narrow, index, size, a, s);
    exact::lemma_ideal(narrow, F::spec_narrow(chance), size, c, s);
    exact::lemma_ideal(
        narrow,
        index.spec_times(size),
        F::spec_narrow(chance).spec_times(size),
        a * s,
        c * s,
    );
    let t = initialization::stratum::<F>(i, n, chance);
    let r = a * s + c * s;
    exact::lemma_ideal(narrow, high[k], low[k], h, l);
    exact::lemma_ideal(narrow, high[k].spec_minus(low[k]), t, h - l, r);
    exact::lemma_ideal(
        narrow,
        low[k],
        high[k].spec_minus(low[k]).spec_times(t),
        l,
        (h - l) * r,
    );
    let (v, d) = (l + (h - l) * r, h - l);
    assert(b * (v - l) == (a + c) * d) by (nonlinear_arith)
        requires
            v == l + d * r,
            r == a * s + c * s,
            s == 1 as real / b,
            b > 0 as real,
    ;
    assert(a * d <= (a + c) * d && (a + c) * d < (a + 1 as real) * d) by (nonlinear_arith)
        requires
            d > 0 as real,
            0 as real <= c < 1 as real,
    ;
}

/// Latin hypercube sampling puts each particle into a stratum of its own: in every coordinate,
/// particle `i` of `n` starts between `i / n` and `(i + 1) / n` of the way from the lower to the
/// upper bound.
pub proof fn law_particles_start_in_their_strata<F: ArgminFloat, R: RangeSource<F>>(
    readings: Readings<F, F::Wide>,
    swarm: ParticleSwarm<Vec<F>, F, R>,
    i: nat,
    p: Seq<F>,
    k: int,
)
    requires
        exact::are_exact::<F>(readings),
        swarm.initialization_strategy is LatinHypercube,
        initialization::is_start(swarm, i, p),
        i < swarm.num_particles <= u64::MAX,
        swarm.bounds.0@.len() == swarm.bounds.1@.len(),
        0 <= k < swarm.bounds.0@.len(),
        float::finite(swarm.bounds.0@[k]) && float::finite(swarm.bounds.1@[k]),
        readings.narrow.at(swarm.bounds.0@[k]) < readings.narrow.at(swarm.bounds.1@[k]),
    ensures
        ({
            let (l, h) = (
                readings.narrow.at(swarm.bounds.0@[k]),
                readings.narrow.at(swarm.bounds.1@[k]),
            );
            let n = swarm.num_particles as real;
            (readings.narrow.value)(p[k]) matches Some(v) && i as real * (h - l) <= n * (v - l) && n
                * (v - l) < (i as real + 1 as real) * (h - l)
        }),
{
    let words = initialization::words_after_starts(swarm, i);
    let chance: F::Wide = random::unit_at(words, 0);
    random::law_unit_at::<F::Wide>(words, 0);
    random::law_unit_within::<F>(chance);
    let (zero, one) = (float::zero::<F::Wide>(), float::one::<F::Wide>());
    exact::lemma_ideal_constants(readings.wide);
    exact::lemma_order(readings.wide, zero, one, 0 as real, 1 as real);
    exact::lemma_order(readings.wide, one, zero, 1 as real, 0 as real);
    lemma_between_is_finite(zero, one, chance);
    exact::lemma_at(readings.wide, chance);
    let c = readings.wide.at(chance);
    exact::lemma_order(readings.wide, zero, chance, 0 as real, c);
    exact::lemma_order(readings.wide, chance, one, c, 1 as real);
    law_strata_get_one_sample_each(
        readings,
        swarm.bounds.0@,
        swarm.bounds.1@,
        i,
        swarm.num_particles,
        chance,
        k,
    );
}

/// The new velocity is, in every coordinate, the sum of the old one and of the two pulls, each times
/// its weight.
pub proof fn law_velocity_is_composed<F: ArgminFloat>(
    reading: Reading<F>,
    velocity: Seq<F>,
    weights: Weights<F>,
    pull_to_optimum: Seq<F>,
    pull_to_global_optimum: Seq<F>,
    i: int,
)
    requires
        reading.is_ideal(),
        velocity.len() == pull_to_optimum.len() == pull_to_global_optimum.len(),
        is_finite(velocity) && is_finite(pull_to_optimum) && is_finite(pull_to_global_optimum),
        float::finite(weights.inertia) && float::finite(weights.cognitive) && float::finite(
            weights.social,
        ),
        0 <= i < velocity.len(),
    ensures
        reading.reads(
            motion::composed_velocity::<Vec<F>, F>(
                velocity,
                weights,
                pull_to_optimum,
                pull_to_global_optimum,
            )[i],
            reading.at(weights.inertia) * reading.at(velocity[i]) + reading.at(weights.cognitive)
                * reading.at(pull_to_optimum[i]) + reading.at(weights.social) * reading.at(
                pull_to_global_optimum[i],
            ),
        ),
{
    let (x, y, z) = (velocity[i], pull_to_optimum[i], pull_to_global_optimum[i]);
    exact::lemma_at(reading, x);
    exact::lemma_at(reading, y);
    exact::lemma_at(reading, z);
    exact::lemma_at(reading, weights.inertia);
    exact::lemma_at(reading, weights.cognitive);
    exact::lemma_at(reading, weights.social);
    let (a, b, c) = (reading.at(x), reading.at(y), reading.at(z));
    let (f, g, h) = (
        reading.at(weights.inertia),
        reading.at(weights.cognitive),
        reading.at(weights.social),
    );
    exact::lemma_ideal(reading, x, weights.inertia, a, f);
    exact::lemma_ideal(reading, y, weights.cognitive, b, g);
    exact::lemma_ideal(reading, z, weights.social, c, h);
    exact::lemma_ideal(
        reading,
        x.spec_times(weights.inertia),
        y.spec_times(weights.cognitive),
        a * f,
        b * g,
    );
    exact::lemma_ideal(
        reading,
        x.spec_times(weights.inertia).spec_plus(y.spec_times(weights.cognitive)),
        z.spec_times(weights.social),
        a * f + b * g,
        c * h,
    );
    assert(a * f + b * g + c * h == f * a + g * b + h * c) by (nonlinear_arith);
}

/// A clamp factor limits how fast a particle is: no coordinate of its velocity exceeds the factor
/// times the range of the search space, in either direction, and slower velocities are left alone.
pub proof fn law_clamp_factor_limits_speed<F: ArgminFloat>(
    reading: Reading<F>,
    velocity: Seq<F>,
    factor: F,
    low: Seq<F>,
    high: Seq<F>,
    i: int,
)
    requires
        reading.is_ideal(),
        velocity.len() == low.len() == high.len(),
        is_finite(velocity) && is_finite(low) && is_finite(high) && float::finite(factor),
        0 <= i < velocity.len(),
        reading.at(factor) >= 0 as real,
        reading.at(low[i]) <= reading.at(high[i]),
    ensures
        ({
            let v = reading.at(velocity[i]);
            let most = reading.at(factor) * (reading.at(high[i]) - reading.at(low[i]));
            let limited = motion::limited_velocity::<Vec<F>, F>(velocity, Some(factor), low, high);
            &&& reading.reads(limited[i], exact::clamped(v, -most, most))
            &&& exact::size(reading.at(limited[i])) <= most
            &&& motion::limited_velocity::<Vec<F>, F>(velocity, None, low, high) == velocity
        }),
{
    exact::lemma_at(reading, velocity[i]);
    exact::lemma_at(reading, factor);
    exact::lemma_at(reading, low[i]);
    exact::lemma_at(reading, high[i]);
    exact::lemma_ideal_constants(reading);
    let (v, f, l, h) = (
        reading.at(velocity[i]),
        reading.at(factor),
        reading.at(low[i]),
        reading.at(high[i]),
    );
    let most = f * (h - l);
    assert(most >= 0 as real && (h - l) * f == most && most * (-(1 as real)) == -most)
        by (nonlinear_arith)
        requires
            most == f * (h - l),
            f >= 0 as real,
            l <= h,
    ;
    exact::lemma_ideal(reading, high[i], low[i], h, l);
    exact::lemma_ideal(reading, high[i].spec_minus(low[i]), factor, h - l, f);
    exact::lemma_ideal(reading, float::zero(), float::one(), 0 as real, 1 as real);
    let top = high[i].spec_minus(low[i]).spec_times(factor);
    exact::lemma_ideal(reading, top, float::minus_one(), most, -(1 as real));
    let (v_min, v_max) = motion::velocity_limits::<Vec<F>, F>(factor, low, high);
    assert(v_max[i] == top && v_min[i] == top.spec_times(float::minus_one()));
    lemma_held_coordinate(reading, velocity, v_min, v_max, i, v, -most, most);
}

/// The length of a direction: its square is the sum of the squares of the coordinates.
pub proof fn law_norm_is_length<F: ArgminFloat>(reading: Reading<F>, p: Seq<F>)
    requires
        reading.is_ideal(),
        is_finite(p),
    ensures
        (reading.value)(<Vec<F> as Position<F>>::norm(p)) matches Some(r) && r >= 0 as real && r * r
            == sum_of_squares(reading, p, p.len()),
{
    lemma_squares(reading, p, p.len());
    let r = exact::lemma_exact_root(
        reading,
        position::squares(p, p.len()),
        sum_of_squares(reading, p, p.len()),
    );
}

/// The sum of the squares of the first `k` coordinates.
pub open spec fn sum_of_squares<F: Real>(reading: Reading<F>, p: Seq<F>, k: nat) -> real
    decreases k,
{
    if k == 0 {
        0 as real
    } else {
        sum_of_squares(reading, p, (k - 1) as nat) + reading.at(p[k - 1]) * reading.at(p[k - 1])
    }
}

proof fn lemma_squares<F: Real>(reading: Reading<F>, p: Seq<F>, k: nat)
    requires
        reading.is_ideal(),
        is_finite(p),
        k <= p.len(),
    ensures
        reading.reads(position::squares(p, k), sum_of_squares(reading, p, k)),
        sum_of_squares(reading, p, k) >= 0 as real,
    decreases k,
{
    exact::lemma_ideal_constants(reading);
    if k > 0 {
        lemma_squares(reading, p, (k - 1) as nat);
        let x = p[k - 1];
        exact::lemma_at(reading, x);
        let a = reading.at(x);
        exact::lemma_ideal(reading, x, x, a, a);
        exact::lemma_ideal(
            reading,
            position::squares(p, (k - 1) as nat),
            x.spec_times(x),
            sum_of_squares(reading, p, (k - 1) as nat),
            a * a,
        );
        assert(a * a >= 0 as real) by (nonlinear_arith);
    }
}

/// Noise moves a position by its share of the range of the search space, in every coordinate, but
/// not out of the bounds.
pub proof fn law_noise_moves_by_share<F: ArgminFloat>(
    readings: Readings<F, F::Wide>,
    p: Seq<F>,
    low: Seq<F>,
    high: Seq<F>,
    noise: F::Wide,
    i: int,
)
    requires
        exact::are_exact::<F>(readings),
        p.len() == low.len() == high.len(),
        is_finite(p) && is_finite(low) && is_finite(high) && float::finite(noise),
        0 <= i < p.len(),
        readings.narrow.at(low[i]) <= readings.narrow.at(high[i]),
    ensures
        ({
            let (l, h) = (readings.narrow.at(low[i]), readings.narrow.at(high[i]));
            readings.narrow.reads(
                mutation::perturbed::<Vec<F>, F>(p, low, high, noise)[i],
                exact::clamped(
                    readings.narrow.at(p[i]) + readings.wide.at(noise) * (h - l),
                    l,
                    h,
                ),
            )
        }),
{
    let (narrow, wide) = (readings.narrow, readings.wide);
    exact::lemma_at(narrow, p[i]);
    exact::lemma_at(narrow, low[i]);
    exact::lemma_at(narrow, high[i]);
    exact::lemma_at(wide, noise);
    let (a, l, h, s) = (narrow.at(p[i]), narrow.at(low[i]), narrow.at(high[i]), wide.at(noise));
    assert(wide.reads(noise, s));
    exact::lemma_ideal(narrow, high[i], low[i], h, l);
    exact::lemma_ideal(narrow, high[i].spec_minus(low[i]), F::spec_narrow(noise), h - l, s);
    let shift = high[i].spec_minus(low[i]).spec_times(F::spec_narrow(noise));
    exact::lemma_ideal(narrow, p[i], shift, a, (h - l) * s);
    assert((h - l) * s == s * (h - l)) by (nonlinear_arith);
    let moved = <Vec<F> as Position<F>>::sum(
        p,
        <Vec<F> as Position<F>>::scaled(
            motion::extent::<Vec<F>, F>(low, high),
            F::spec_narrow(noise),
        ),
    );
    assert(moved[i] == p[i].spec_plus(shift));
    lemma_held_coordinate(narrow, moved, low, high, i, a + s * (h - l), l, h);
}

/// A particle moves by its velocity, in every coordinate, but not out of the bounds.
pub proof fn law_particles_move_by_velocity<F: ArgminFloat, R>(
    reading: Reading<F>,
    swarm: ParticleSwarm<Vec<F>, F, R>,
    weights: Weights<F>,
    best: Seq<F>,
    p: ParticleView<Seq<F>, F>,
    q: ParticleView<Seq<F>, F>,
    i: int,
)
    requires
        reading.is_ideal(),
        motion::is_moved(swarm, weights, best, p, q),
        p.position.len() == q.velocity.len() == swarm.bounds.0@.len() == swarm.bounds.1@.len(),
        is_finite(p.position) && is_finite(q.velocity),
        is_finite(swarm.bounds.0@) && is_finite(swarm.bounds.1@),
        0 <= i < p.position.len(),
        reading.at(swarm.bounds.0@[i]) <= reading.at(swarm.bounds.1@[i]),
    ensures
        reading.reads(
            q.position[i],
            exact::clamped(
                reading.at(p.position[i]) + reading.at(q.velocity[i]),
                reading.at(swarm.bounds.0@[i]),
                reading.at(swarm.bounds.1@[i]),
            ),
        ),
        q.cost == p.cost,
        q.best_position == p.best_position,
        q.best_cost == p.best_cost,
{
    let (low, high) = (swarm.bounds.0@, swarm.bounds.1@);
    exact::lemma_at(reading, p.position[i]);
    exact::lemma_at(reading, q.velocity[i]);
    exact::lemma_at(reading, low[i]);
    exact::lemma_at(reading, high[i]);
    let (a, v) = (reading.at(p.position[i]), reading.at(q.velocity[i]));
    exact::lemma_ideal(reading, p.position[i], q.velocity[i], a, v);
    lemma_held_coordinate(
        reading,
        <Vec<F> as Position<F>>::sum(p.position, q.velocity),
        low,
        high,
        i,
        a + v,
        reading.at(low[i]),
        reading.at(high[i]),
    );
}

/// Whether `r` is zero or `target`, or lies between the two.
pub open spec fn is_towards(r: real, target: real) -> bool {
    0 as real <= r <= target || target <= r <= 0 as real
}

/// Particles are drawn to what is best: unless velocities are limited or drawn anew, the new velocity
/// of a particle is, in every coordinate, its old one times the inertia, plus a part of the way to
/// its own best position times the cognitive weight, plus a part of the way to the best position of
/// the swarm times the social weight.
pub proof fn law_particles_are_drawn_to_the_best<F: ArgminFloat, R>(
    reading: Reading<F>,
    swarm: ParticleSwarm<Vec<F>, F, R>,
    weights: Weights<F>,
    best: Seq<F>,
    p: ParticleView<Seq<F>, F>,
    q: ParticleView<Seq<F>, F>,
    i: int,
)
    requires
        reading.is_ideal(),
        motion::is_moved(swarm, weights, best, p, q),
        swarm.velocity_clamp_factor is None,
        swarm.velocity_mutation_threshold is None,
        best.len() == p.position.len() == p.best_position.len() == p.velocity.len(),
        is_finite(best) && is_finite(p.position) && is_finite(p.best_position) && is_finite(
            p.velocity,
        ),
        float::finite(weights.inertia) && float::finite(weights.cognitive) && float::finite(
            weights.social,
        ),
        0 <= i < best.len(),
    ensures
        exists|s: real, t: real|
            {
                &&& #[trigger] is_towards(
                    s,
                    reading.at(p.best_position[i]) - reading.at(p.position[i]),
                )
                &&& #[trigger] is_towards(t, reading.at(best[i]) - reading.at(p.position[i]))
                &&& reading.reads(
                    q.velocity[i],
                    reading.at(weights.inertia) * reading.at(p.velocity[i]) + reading.at(
                        weights.cognitive,
                    ) * s + reading.at(weights.social) * t,
                )
            },
{
    let (pull, global, refreshed) = choose|
        pull_to_optimum: Seq<F>,
        pull_to_global_optimum: Seq<F>,
        refreshed: Seq<F>,
    | #[trigger]
        motion::is_pulled(
            swarm,
            weights,
            best,
            p,
            q,
            pull_to_optimum,
            pull_to_global_optimum,
            refreshed,
        );
    let own = <Vec<F> as Position<F>>::difference(p.best_position, p.position);
    let common = <Vec<F> as Position<F>>::difference(best, p.position);
    assert forall|k: int| 0 <= k < pull.len() implies float::finite(#[trigger] pull[k])
        && is_towards(
        reading.at(pull[k]),
        reading.at(p.best_position[k]) - reading.at(p.position[k]),
    ) by {
        lemma_pull(reading, p.best_position[k], p.position[k], pull[k]);
        assert(position::is_between(float::zero::<F>(), own[k], pull[k]));
    }
    assert forall|k: int| 0 <= k < global.len() implies float::finite(#[trigger] global[k])
        && is_towards(
        reading.at(global[k]),
        reading.at(best[k]) - reading.at(p.position[k]),
    ) by {
        lemma_pull(reading, best[k], p.position[k], global[k]);
        assert(position::is_between(float::zero::<F>(), common[k], global[k]));
    }
    law_velocity_is_composed(reading, p.velocity, weights, pull, global, i);
    let (s, t) = (reading.at(pull[i]), reading.at(global[i]));
    assert(float::finite(pull[i]) && float::finite(global[i]));
    assert(is_towards(s, reading.at(p.best_position[i]) - reading.at(p.position[i])));
    assert(is_towards(t, reading.at(best[i]) - reading.at(p.position[i])));
}

/// What is drawn between zero and the way to another number is a part of that way.
proof fn lemma_pull<F: ArgminFloat>(reading: Reading<F>, target: F, from: F, pull: F)
    requires
        reading.is_ideal(),
        float::finite(target),
        float::finite(from),
    ensures
        position::is_between(float::zero::<F>(), target.spec_minus(from), pull) ==> float::finite(
            pull,
        ) && is_towards(reading.at(pull), reading.at(target) - reading.at(from)),
{
    exact::lemma_at(reading, target);
    exact::lemma_at(reading, from);
    exact::lemma_ideal_constants(reading);
    let (zero, way) = (float::zero::<F>(), target.spec_minus(from));
    let d = reading.at(target) - reading.at(from);
    exact::lemma_ideal(reading, target, from, reading.at(target), reading.at(from));
    exact::lemma_order(reading, zero, way, 0 as real, d);
    exact::lemma_order(reading, way, zero, d, 0 as real);
    if position::is_between(zero, way, pull) {
        if zero.spec_same(way) {
        } else if zero.spec_less(way) {
            lemma_between_is_finite(zero, way, pull);
        } else {
            lemma_between_is_finite(way, zero, pull);
        }
        exact::lemma_at(reading, pull);
        let r = reading.at(pull);
        exact::lemma_order(reading, zero, pull, 0 as real, r);
        exact::lemma_order(reading, pull, zero, r, 0 as real);
        exact::lemma_order(reading, way, pull, d, r);
        exact::lemma_order(reading, pull, way, r, d);
    }
}

/// What lies between finite numbers is finite.
proof fn lemma_between_is_finite<F: Real>(low: F, high: F, x: F)
    requires
        float::finite(low),
        float::finite(high),
        float::at_most(low, x),
        float::at_most(x, high),
    ensures
        float::finite(x),
{
    let (least, most) = (F::spec_neg_infinity(), F::spec_infinity());
    F::order_laws(low, x, least);
    F::order_laws(x, most, x);
    F::order_laws(x, high, most);
    F::order_laws(high, most, high);
}

/// Coefficients that vary with time go evenly from their first to their last values: iteration
/// `iter` of `max_iterations` is that part of the way.
pub proof fn law_coefficients_vary_evenly<F: Real>(
    reading: Reading<F>,
    c1_initial: F,
    c1_final: F,
    c2_initial: F,
    c2_final: F,
    iter: u64,
    max_iterations: usize,
)
    requires
        reading.is_ideal(),
        0 < max_iterations <= u64::MAX,
        float::finite(c1_initial) && float::finite(c1_final),
        float::finite(c2_initial) && float::finite(c2_final),
    ensures
        ({
            let (cognitive, social) = varying(c1_initial, c1_final, c2_initial, c2_final).coefficients(
                iter,
                max_iterations,
            );
            let (i, n) = (iter as real, max_iterations as real);
            &&& (reading.value)(cognitive) matches Some(c) && (c - reading.at(c1_initial)) * n == (
            reading.at(c1_final) - reading.at(c1_initial)) * i
            &&& (reading.value)(social) matches Some(c) && (c - reading.at(c2_initial)) * n == (
            reading.at(c2_final) - reading.at(c2_initial)) * i
        }),
{
    lemma_varying(reading, c1_initial, c1_final, iter, max_iterations);
    lemma_varying(reading, c2_initial, c2_final, iter, max_iterations);
}

/// Acceleration coefficients that vary with time.
pub open spec fn varying<F: Real>(
    c1_initial: F,
    c1_final: F,
    c2_initial: F,
    c2_final: F,
) -> AccelerationCoefficientStrategy<F> {
    AccelerationCoefficientStrategy::TimeVarying { c1_initial, c1_final, c2_initial, c2_final }
}

proof fn lemma_varying<F: Real>(
    reading: Reading<F>,
    first: F,
    last: F,
    iter: u64,
    max_iterations: usize,
)
    requires
        reading.is_ideal(),
        0 < max_iterations <= u64::MAX,
        float::finite(first) && float::finite(last),
    ensures
        ({
            let progress = F::spec_from_u64(iter).spec_over(
                F::spec_from_u64(max_iterations as u64),
            );
            let c = first.spec_plus(last.spec_minus(first).spec_times(progress));
            (reading.value)(c) matches Some(r) && (r - reading.at(first)) * max_iterations as real
                == (reading.at(last) - reading.at(first)) * iter as real
        }),
{
    exact::lemma_at(reading, first);
    exact::lemma_at(reading, last);
    exact::lemma_ideal_constants(reading);
    let (a, b) = (reading.at(first), reading.at(last));
    let (i, n) = (iter as real, max_iterations as real);
    let (x, y) = (F::spec_from_u64(iter), F::spec_from_u64(max_iterations as u64));
    assert(reading.reads(x, i) && reading.reads(y, n));
    exact::lemma_ideal(reading, x, y, i, n);
    exact::lemma_ideal(reading, last, first, b, a);
    let part = last.spec_minus(first).spec_times(x.spec_over(y));
    exact::lemma_ideal(reading, last.spec_minus(first), x.spec_over(y), b - a, i / n);
    exact::lemma_ideal(reading, first, part, a, (b - a) * (i / n));
    let r = a + (b - a) * (i / n);
    assert((r - a) * n == (b - a) * i) by (nonlinear_arith)
        requires
            r == a + (b - a) * (i / n),
            n > 0 as real,
    ;
}

/// The chaotic state follows the logistic map: what it lacks to one becomes the square of one less
/// twice the state. The weight is that part of the way from the least to the greatest weight.
pub proof fn law_chaotic_state_follows_logistic_map<F: Real>(
    reading: Reading<F>,
    w_min: F,
    w_max: F,
    state: F,
)
    requires
        reading.is_ideal(),
        float::finite(w_min) && float::finite(w_max) && float::finite(state),
    ensures
        ({
            let now = strategy::chaotic(w_min, w_max, state, 0);
            let next = now.advanced();
            let z = reading.at(state);
            &&& next is Chaotic && next->w_min == w_min && next->w_max == w_max
            &&& (reading.value)(next->state) matches Some(y) && 1 as real - y == (1 as real
                - 2 as real * z) * (1 as real - 2 as real * z)
            &&& (reading.value)(now.weight()) matches Some(w) && w - reading.at(w_min) == z * (
            reading.at(w_max) - reading.at(w_min))
        }),
{
    exact::lemma_at(reading, w_min);
    exact::lemma_at(reading, w_max);
    exact::lemma_at(reading, state);
    exact::lemma_ideal_constants(reading);
    let (a, b, z) = (reading.at(w_min), reading.at(w_max), reading.at(state));
    let (one, four) = (float::one::<F>(), F::spec_decimal(4, 0));
    exact::lemma_ideal(reading, four, state, 4 as real, z);
    exact::lemma_ideal(reading, one, state, 1 as real, z);
    exact::lemma_ideal(
        reading,
        four.spec_times(state),
        one.spec_minus(state),
        4 as real * z,
        1 as real - z,
    );
    assert(1 as real - (4 as real * z) * (1 as real - z) == (1 as real - 2 as real * z) * (1 as real
        - 2 as real * z)) by (nonlinear_arith);
    exact::lemma_ideal(reading, w_max, w_min, b, a);
    exact::lemma_ideal(reading, w_max.spec_minus(w_min), state, b - a, z);
    exact::lemma_ideal(
        reading,
        w_min,
        w_max.spec_minus(w_min).spec_times(state),
        a,
        (b - a) * z,
    );
    assert((b - a) * z == z * (b - a)) by (nonlinear_arith);
}

/// The sum of the costs of the first `k` particles.
pub open spec fn sum_of_costs<V, F: Real>(
    reading: Reading<F>,
    particles: Seq<ParticleView<V, F>>,
    k: nat,
) -> real
    decreases k,
{
    if k == 0 {
        0 as real
    } else {
        sum_of_costs(reading, particles, (k - 1) as nat) + reading.at(particles[k - 1].cost)
    }
}

proof fn lemma_total_cost<V, F: Real>(
    reading: Reading<F>,
    particles: Seq<ParticleView<V, F>>,
    k: nat,
)
    requires
        reading.is_ideal(),
        forall|i: int| 0 <= i < particles.len() ==> float::finite(#[trigger] particles[i].cost),
        k <= particles.len(),
    ensures
        reading.reads(
            standing::total_cost(particles, k),
            sum_of_costs(reading, particles, k),
        ),
    decreases k,
{
    exact::lemma_ideal_constants(reading);
    if k > 0 {
        lemma_total_cost(reading, particles, (k - 1) as nat);
        let c = particles[k - 1].cost;
        exact::lemma_at(reading, c);
        exact::lemma_ideal(
            reading,
            standing::total_cost(particles, (k - 1) as nat),
            c,
            sum_of_costs(reading, particles, (k - 1) as nat),
            reading.at(c),
        );
    }
}

/// Which particles are above a cost.
proof fn lemma_above<V, F: Real>(
    particles: Seq<ParticleView<V, F>>,
    average: F,
    k: nat,
    i: usize,
)
    requires
        k <= particles.len(),
        k <= usize::MAX,
    ensures
        standing::above(particles, average, k).contains(i) <==> i < k && average.spec_less(
            particles[i as int].cost,
        ),
    decreases k,
{
    let longer = standing::above(particles, average, k);
    if k > 0 {
        let last = (k - 1) as usize;
        lemma_above(particles, average, (k - 1) as nat, i);
        let shorter = standing::above(particles, average, (k - 1) as nat);
        if average.spec_less(particles[k - 1].cost) {
            assert(longer[shorter.len() as int] == last);
            if shorter.contains(i) {
                let j = choose|j: int| 0 <= j < shorter.len() && shorter[j] == i;
                assert(longer[j] == i);
            }
            if longer.contains(i) && i != last {
                let j = choose|j: int| 0 <= j < longer.len() && longer[j] == i;
                assert(shorter[j] == i);
            }
        }
    }
}

/// The particles that count as below average are those that cost more than the average: whose cost,
/// times the number of particles, exceeds the sum of all costs.
pub proof fn law_below_average_costs_more<V, F: Real>(
    reading: Reading<F>,
    particles: Seq<ParticleView<V, F>>,
    i: usize,
)
    requires
        reading.is_ideal(),
        forall|i: int| 0 <= i < particles.len() ==> float::finite(#[trigger] particles[i].cost),
        i < particles.len() <= usize::MAX,
        particles.len() <= u64::MAX,
    ensures
        standing::above(
            particles,
            standing::average_cost(particles),
            particles.len(),
        ).contains(i) <==> reading.at(particles[i as int].cost) * particles.len() as real
            > sum_of_costs(reading, particles, particles.len()),
{
    let n = particles.len();
    lemma_total_cost(reading, particles, n);
    lemma_above(particles, standing::average_cost(particles), n, i);
    exact::lemma_ideal_constants(reading);
    let (x, y) = (standing::total_cost(particles, n), F::spec_from_u64(n as u64));
    let (s, m) = (sum_of_costs(reading, particles, n), n as real);
    assert(reading.reads(y, m));
    exact::lemma_ideal(reading, x, y, s, m);
    let cost = particles[i as int].cost;
    exact::lemma_at(reading, cost);
    let c = reading.at(cost);
    exact::lemma_order(reading, x.spec_over(y), cost, s / m, c);
    assert(s / m < c <==> c * m > s) by (nonlinear_arith)
        requires
            m > 0 as real,
    ;
}

/// Mutation is applied to all particles, to those that are below average, or to none of them, as
/// chosen.
pub proof fn law_mutation_is_applied_as_chosen<V, F: Real>(s: StandingView<V, F>, i: usize)
    requires
        i < s.particles.len() <= usize::MAX,
    ensures
        iteration::chosen(s, MutationApplication::AllParticles).contains(i),
        iteration::chosen(s, MutationApplication::BelowAverage).contains(i)
            <==> standing::average_cost(s.particles).spec_less(s.particles[i as int].cost),
        !iteration::chosen(s, MutationApplication::GlobalBestOnly).contains(i),
        !iteration::chosen(s, MutationApplication::Disabled).contains(i),
{
    assert(standing::everyone(s.particles.len())[i as int] == i);
    lemma_above(s.particles, standing::average_cost(s.particles), s.particles.len(), i);
}

/// The first velocities reach, in every coordinate, at most across the whole search space, in either
/// direction.
pub proof fn law_first_velocities_reach_across<F: ArgminFloat, R>(
    reading: Reading<F>,
    swarm: ParticleSwarm<Vec<F>, F, R>,
    velocity: Seq<F>,
    i: int,
)
    requires
        reading.is_ideal(),
        initialization::is_start_velocity(swarm, velocity),
        swarm.bounds.0@.len() == swarm.bounds.1@.len(),
        0 <= i < velocity.len(),
        float::finite(swarm.bounds.0@[i]) && float::finite(swarm.bounds.1@[i]),
        reading.at(swarm.bounds.0@[i]) <= reading.at(swarm.bounds.1@[i]),
    ensures
        velocity.len() == swarm.bounds.0@.len(),
        (reading.value)(velocity[i]) matches Some(v) && exact::size(v) <= reading.at(
            swarm.bounds.1@[i],
        ) - reading.at(swarm.bounds.0@[i]),
{
    let (low, high) = (swarm.bounds.0@[i], swarm.bounds.1@[i]);
    exact::lemma_at(reading, low);
    exact::lemma_at(reading, high);
    exact::lemma_ideal_constants(reading);
    let d = reading.at(high) - reading.at(low);
    exact::lemma_ideal(reading, high, low, reading.at(high), reading.at(low));
    exact::lemma_ideal(reading, float::zero(), float::one(), 0 as real, 1 as real);
    let (most, minus) = (high.spec_minus(low), float::minus_one::<F>());
    exact::lemma_ideal(reading, most, minus, d, -(1 as real));
    let least = most.spec_times(minus);
    assert(d * (-(1 as real)) == -d) by (nonlinear_arith);
    assert(position::is_between(least, most, velocity[i]));
    exact::lemma_order(reading, least, most, -d, d);
    exact::lemma_order(reading, most, least, d, -d);
    let v = velocity[i];
    if !least.spec_same(most) {
        lemma_between_is_finite(least, most, v);
    }
    exact::lemma_at(reading, v);
    exact::lemma_order(reading, least, v, -d, reading.at(v));
    exact::lemma_order(reading, v, most, reading.at(v), d);
}

/// In every iteration, the pull of a particle to its own best position has the cognitive coefficient
/// of the strategy, and the pull to the best position of the swarm has the social one. The inertia is
/// that of the strategy after it has advanced.
pub proof fn law_weights_are_those_of_the_strategies<F: ArgminFloat, R>(
    swarm: ParticleSwarm<Vec<F>, F, R>,
    cognitive: F,
    social: F,
    inertia: F,
    iter: u64,
)
    requires
        swarm.acceleration_strategy == (AccelerationCoefficientStrategy::Constant {
            cognitive,
            social,
        }),
        swarm.inertia_strategy == InertiaWeightStrategy::Constant(inertia),
    ensures
        iteration::weights_at(swarm, iter).cognitive == cognitive,
        iteration::weights_at(swarm, iter).social == social,
        iteration::weights_at(swarm, iter).inertia == inertia,
{
}

} // verus!
