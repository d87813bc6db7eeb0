//! How crossover and mutation distribute new values, in terms of real numbers.

use crate::exact;
use crate::exact::{Reading, Readings};
use crate::float;
use crate::float::{ArgminFloat, Real};
use crate::nsgaii::variation;
use vstd::prelude::*;

verus! {

/// What simulated binary crossover takes the root of, for the random number `t`: it is less than one
/// for numbers below one half and more than one for numbers above.
pub open spec fn odds(t: real) -> real {
    if 2 as real * t <= 1 as real {
        2 as real * t
    } else {
        1 as real / (2 as real * (1 as real - t))
    }
}

/// Where the odds lie, and that they grow.
proof fn lemma_odds(t: real)
    requires
        0 as real <= t < 1 as real,
    ensures
        odds(t) >= 0 as real,
        2 as real * t <= 1 as real ==> odds(t) <= 1 as real,
        2 as real * t >= 1 as real ==> odds(t) >= 1 as real,
{
    if 2 as real * t > 1 as real {
        let d = 2 as real * (1 as real - t);
        assert(1 as real / d >= 1 as real) by (nonlinear_arith)
            requires
                (0 as real) < d <= 1 as real,
        ;
    }
}

/// The real number that the spread factor stands for.
proof fn lemma_spread<W: Real>(
    reading: Reading<W>,
    power: spec_fn(real, real) -> real,
    eta: W,
    u: W,
    e: real,
    t: real,
)
    requires
        exact::keeps_powers(reading, power),
        reading.reads(eta, e),
        reading.reads(u, t),
        e >= 0 as real,
        0 as real <= t < 1 as real,
    ensures
        reading.reads(
            variation::spread_factor(eta, u),
            power(odds(t), 1 as real / (e + 1 as real)),
        ),
{
    exact::lemma_keeps_powers(reading, power);
    exact::lemma_ideal_constants(reading);
    let (one, two, half) = (float::one::<W>(), variation::two::<W>(), variation::half::<W>());
    exact::lemma_ideal(reading, eta, one, e, 1 as real);
    let p = e + 1 as real;
    exact::lemma_ideal(reading, one, eta.spec_plus(one), 1 as real, p);
    assert(1 as real / p > 0 as real) by (nonlinear_arith)
        requires
            p > 0 as real,
    ;
    exact::lemma_order(reading, u, half, t, 1 as real / 2 as real);
    exact::lemma_ideal(reading, two, u, 2 as real, t);
    exact::lemma_ideal(reading, one, u, 1 as real, t);
    exact::lemma_ideal(reading, two, one.spec_minus(u), 2 as real, 1 as real - t);
    exact::lemma_ideal(
        reading,
        one,
        two.spec_times(one.spec_minus(u)),
        1 as real,
        2 as real * (1 as real - t),
    );
    lemma_odds(t);
    let exponent = one.spec_over(eta.spec_plus(one));
    let base = if float::at_most(u, half) {
        two.spec_times(u)
    } else {
        one.spec_over(two.spec_times(one.spec_minus(u)))
    };
    exact::lemma_power_reads(reading, power, base, exponent, odds(t), 1 as real / p);
}

/// The spread factor of simulated binary crossover, raised to the distribution index plus one, is
/// twice the random number where that is at most one half, and one over twice its distance from one
/// otherwise. So it is at most one in the first case, at least one in the second, and one for one
/// half.
pub proof fn law_spread_factor<W: Real>(
    reading: Reading<W>,
    power: spec_fn(real, real) -> real,
    eta: W,
    u: W,
    e: real,
    t: real,
)
    requires
        exact::keeps_powers(reading, power),
        reading.reads(eta, e),
        reading.reads(u, t),
        e >= 0 as real,
        0 as real <= t < 1 as real,
    ensures
        (reading.value)(variation::spread_factor(eta, u)) matches Some(b) && {
            &&& b >= 0 as real
            &&& 2 as real * t <= 1 as real ==> b <= 1 as real && power(b, e + 1 as real) == 2 as real
                * t
            &&& 2 as real * t >= 1 as real ==> b >= 1 as real && power(b, e + 1 as real) * (2 as real
                * (1 as real - t)) == 1 as real
        },
{
    exact::lemma_keeps_powers(reading, power);
    let p = e + 1 as real;
    lemma_spread(reading, power, eta, u, e, t);
    lemma_odds(t);
    exact::lemma_root_of_power(power, odds(t), p);
    if odds(t) <= 1 as real {
        exact::lemma_power(power, odds(t), 1 as real, 1 as real / p);
    }
    if odds(t) >= 1 as real {
        exact::lemma_power(power, 1 as real, odds(t), 1 as real / p);
    }
    if 2 as real * t > 1 as real {
        let d = 2 as real * (1 as real - t);
        assert((1 as real / d) * d == 1 as real) by (nonlinear_arith)
            requires
                d > 0 as real,
        ;
    }
}

/// Crossover contracts and expands alike: the spread factors of two random numbers that add up to
/// one are inverse to each other.
pub proof fn law_spread_is_balanced<W: Real>(
    reading: Reading<W>,
    power: spec_fn(real, real) -> real,
    eta: W,
    u: W,
    v: W,
    e: real,
    t: real,
)
    requires
        exact::keeps_powers(reading, power),
        reading.reads(eta, e),
        reading.reads(u, t),
        reading.reads(v, 1 as real - t),
        e >= 0 as real,
        (0 as real) < t < 1 as real,
    ensures
        (reading.value)(variation::spread_factor(eta, u)) matches Some(b) && (reading.value)(
            variation::spread_factor(eta, v),
        ) matches Some(c) && b * c == 1 as real,
{
    exact::lemma_keeps_powers(reading, power);
    let p = e + 1 as real;
    let f = 1 as real / p;
    lemma_spread(reading, power, eta, u, e, t);
    lemma_spread(reading, power, eta, v, e, 1 as real - t);
    lemma_odds(t);
    lemma_odds(1 as real - t);
    exact::lemma_root_of_power(power, 1 as real, p);
    let (x, y) = (odds(t), odds(1 as real - t));
    assert(x * y == 1 as real) by {
        let (d, g) = (2 as real * (1 as real - t), 2 as real * t);
        assert((1 as real / d) * d == 1 as real && (1 as real / g) * g == 1 as real)
            by (nonlinear_arith)
            requires
                d > 0 as real,
                g > 0 as real,
        ;
        assert(2 as real * (1 as real - (1 as real - t)) == g);
        assert(g * (1 as real / g) == (1 as real / g) * g) by (nonlinear_arith);
        if g == 1 as real {
            assert(d == 1 as real);
        }
    }
    exact::lemma_power_of_product(power, x, y, f);
    exact::lemma_power(power, 1 as real, 1 as real, f);
}

/// A higher distribution index brings the spread factor closer to one, from the same side, for the
/// same random number.
pub proof fn law_higher_index_spreads_less<W: Real>(
    reading: Reading<W>,
    power: spec_fn(real, real) -> real,
    lower: W,
    higher: W,
    u: W,
    e: real,
    f: real,
    t: real,
)
    requires
        exact::keeps_powers(reading, power),
        reading.reads(lower, e),
        reading.reads(higher, f),
        reading.reads(u, t),
        0 as real <= e <= f,
        0 as real <= t < 1 as real,
    ensures
        (reading.value)(variation::spread_factor(lower, u)) matches Some(b) && (reading.value)(
            variation::spread_factor(higher, u),
        ) matches Some(c) && {
            &&& 2 as real * t <= 1 as real ==> b <= c <= 1 as real
            &&& 2 as real * t >= 1 as real ==> 1 as real <= c <= b
        },
{
    exact::lemma_keeps_powers(reading, power);
    law_spread_factor(reading, power, lower, u, e, t);
    law_spread_factor(reading, power, higher, u, f, t);
    lemma_spread(reading, power, lower, u, e, t);
    lemma_spread(reading, power, higher, u, f, t);
    lemma_odds(t);
    let (p, q) = (e + 1 as real, f + 1 as real);
    let (i, j) = (1 as real / p, 1 as real / q);
    assert(0 as real <= j <= i && j > 0 as real) by (nonlinear_arith)
        requires
            1 as real <= p <= q,
            i == 1 as real / p,
            j == 1 as real / q,
    ;
    let x = odds(t);
    if 2 as real * t <= 1 as real {
        exact::lemma_higher_power(power, x, j, i);
    }
    if 2 as real * t >= 1 as real {
        let y = 1 as real / x;
        assert(x * y == 1 as real && 0 as real <= y <= 1 as real) by (nonlinear_arith)
            requires
                x >= 1 as real,
                y == 1 as real / x,
        ;
        exact::lemma_higher_power(power, y, j, i);
        exact::lemma_power_of_product(power, x, y, i);
        exact::lemma_power_of_product(power, x, y, j);
        exact::lemma_power(power, 1 as real, 1 as real, i);
        exact::lemma_power(power, 1 as real, 1 as real, j);
        exact::lemma_power(power, y, y, i);
        let (xi, xj, yi, yj) = (power(x, i), power(x, j), power(y, i), power(y, j));
        assert(xj <= xi) by (nonlinear_arith)
            requires
                xi * yi == 1 as real,
                xj * yj == 1 as real,
                0 as real <= yi <= yj,
                xi >= 0 as real,
                xj >= 0 as real,
        ;
    }
}

/// The distance below which the values of two parents are not crossed.
pub open spec fn closeness() -> real {
    1 as real / exact::power_of_ten(14)
}

/// Whether all numbers that crossover works with are finite, and the bounds are in order.
pub open spec fn can_cross<F: ArgminFloat>(
    readings: Readings<F, F::Wide>,
    power: spec_fn(real, real) -> real,
    parents: (F, F),
    bound: (F, F),
    eta: F::Wide,
    u: F::Wide,
) -> bool {
    &&& exact::are_exact::<F>(readings)
    &&& exact::keeps_powers(readings.wide, power)
    &&& float::finite(parents.0) && float::finite(parents.1)
    &&& float::finite(bound.0) && float::finite(bound.1) && float::finite(eta) && float::finite(u)
    &&& readings.narrow.at(bound.0) <= readings.narrow.at(bound.1)
    &&& readings.wide.at(eta) >= 0 as real
    &&& 0 as real <= readings.wide.at(u) < 1 as real
}

/// Parents that differ by less than `1e-14` are passed on. The children of all others lie around the
/// middle of the parents, as far from each other as the parents are, times the spread factor, unless
/// that is beyond the bounds: the first below the middle and the second above.
pub proof fn law_children_lie_around_the_middle<F: ArgminFloat>(
    readings: Readings<F, F::Wide>,
    power: spec_fn(real, real) -> real,
    parents: (F, F),
    bound: (F, F),
    eta: F::Wide,
    u: F::Wide,
)
    requires
        can_cross(readings, power, parents, bound, eta, u),
    ensures
        ({
            let (a, b) = (readings.narrow.at(parents.0), readings.narrow.at(parents.1));
            let (l, h) = (readings.narrow.at(bound.0), readings.narrow.at(bound.1));
            let children = variation::crossed(parents, bound, eta, u);
            let reach = readings.wide.at(variation::spread_factor(eta, u)) * exact::size(a - b);
            if exact::size(a - b) < closeness() {
                children == parents
            } else {
                &&& readings.narrow.reads(
                    children.0,
                    exact::clamped((a + b - reach) / 2 as real, l, h),
                )
                &&& readings.narrow.reads(
                    children.1,
                    exact::clamped((a + b + reach) / 2 as real, l, h),
                )
            }
        }),
{
    let (narrow, wide) = (readings.narrow, readings.wide);
    let (a, b) = (narrow.at(parents.0), narrow.at(parents.1));
    let (l, h) = (narrow.at(bound.0), narrow.at(bound.1));
    exact::lemma_at(narrow, parents.0);
    exact::lemma_at(narrow, parents.1);
    exact::lemma_at(narrow, bound.0);
    exact::lemma_at(narrow, bound.1);
    exact::lemma_at(wide, eta);
    exact::lemma_at(wide, u);
    exact::lemma_keeps_powers(wide, power);
    exact::lemma_ideal_constants(wide);
    exact::lemma_decimal(wide, 1, 14);
    lemma_spread(wide, power, eta, u, wide.at(eta), wide.at(u));
    let (y1, y2) = (parents.0.spec_widen(), parents.1.spec_widen());
    assert(wide.reads(y1, a) && wide.reads(y2, b));
    exact::lemma_ideal(wide, y1, y2, a, b);
    exact::lemma_ideal(wide, y2, y1, b, a);
    exact::lemma_ideal(wide, y1.spec_minus(y2), y1.spec_minus(y2), a - b, a - b);
    let least = F::Wide::spec_decimal(1, 14);
    exact::lemma_order(
        wide,
        y1.spec_minus(y2).spec_magnitude(),
        least,
        exact::size(a - b),
        closeness(),
    );
    let distance = if y1.spec_less(y2) {
        y2.spec_minus(y1)
    } else {
        y1.spec_minus(y2)
    };
    let d = exact::size(a - b);
    assert(wide.reads(distance, d));
    let factor = variation::spread_factor(eta, u);
    exact::lemma_ideal(wide, factor, distance, wide.at(factor), d);
    let (reach, r) = (factor.spec_times(distance), wide.at(factor) * d);
    let sum = y1.spec_plus(y2);
    exact::lemma_ideal(wide, sum, reach, a + b, r);
    let half = variation::half::<F::Wide>();
    let (less, more) = (sum.spec_minus(reach), sum.spec_plus(reach));
    exact::lemma_ideal(wide, half, less, 1 as real / 2 as real, a + b - r);
    exact::lemma_ideal(wide, half, more, 1 as real / 2 as real, a + b + r);
    let (x, y) = ((a + b - r) / 2 as real, (a + b + r) / 2 as real);
    assert((1 as real / 2 as real) * (a + b - r) == x && (1 as real / 2 as real) * (a + b + r) == y);
    let (low, high) = (bound.0.spec_widen(), bound.1.spec_widen());
    assert(wide.reads(low, l) && wide.reads(high, h));
    exact::lemma_ideal_held(wide, half.spec_times(less), low, high, x, l, h);
    exact::lemma_ideal_held(wide, half.spec_times(more), low, high, y, l, h);
    assert(wide.reads(
        variation::held(half.spec_times(less), low, high),
        exact::clamped(x, l, h),
    ));
    assert(wide.reads(
        variation::held(half.spec_times(more), low, high),
        exact::clamped(y, l, h),
    ));
}

/// Crossover keeps the mean of the values, unless a child would be beyond the bounds, and parents
/// come out as they are for the random number one half.
pub proof fn law_crossover_keeps_the_mean<F: ArgminFloat>(
    readings: Readings<F, F::Wide>,
    power: spec_fn(real, real) -> real,
    parents: (F, F),
    bound: (F, F),
    eta: F::Wide,
    u: F::Wide,
)
    requires
        can_cross(readings, power, parents, bound, eta, u),
        readings.narrow.at(bound.0) < readings.narrow.at(
            variation::crossed(parents, bound, eta, u).0,
        ),
        readings.narrow.at(variation::crossed(parents, bound, eta, u).1) < readings.narrow.at(
            bound.1,
        ),
    ensures
        ({
            let (a, b) = (readings.narrow.at(parents.0), readings.narrow.at(parents.1));
            let children = variation::crossed(parents, bound, eta, u);
            let (c, d) = (readings.narrow.at(children.0), readings.narrow.at(children.1));
            &&& c + d == a + b
            &&& 2 as real * readings.wide.at(u) == 1 as real ==> d - c == exact::size(a - b)
                || children == parents
        }),
{
    let (a, b) = (readings.narrow.at(parents.0), readings.narrow.at(parents.1));
    law_children_lie_around_the_middle(readings, power, parents, bound, eta, u);
    exact::lemma_at(readings.wide, eta);
    exact::lemma_at(readings.wide, u);
    let t = readings.wide.at(u);
    law_spread_factor(readings.wide, power, eta, u, readings.wide.at(eta), t);
    let (f, d) = (readings.wide.at(variation::spread_factor(eta, u)), exact::size(a - b));
    assert(f * d >= 0 as real) by (nonlinear_arith)
        requires
            f >= 0 as real,
            d >= 0 as real,
    ;
    if 2 as real * t == 1 as real {
        assert(f * d == d) by (nonlinear_arith)
            requires
                f == 1 as real,
        ;
    }
}

/// Holding two numbers on the same side of a third, which is between the bounds, brings neither past
/// the other.
proof fn lemma_clamped_distance(x: real, y: real, m: real, l: real, h: real)
    requires
        l <= m <= h,
        x <= y <= m || m <= y <= x,
    ensures
        exact::size(exact::clamped(y, l, h) - m) <= exact::size(exact::clamped(x, l, h) - m),
{
}

/// A higher distribution index keeps children closer to their parents: for the same random number,
/// the first child is no farther from the lesser parent, and the second no farther from the greater.
pub proof fn law_higher_index_crosses_closer<F: ArgminFloat>(
    readings: Readings<F, F::Wide>,
    power: spec_fn(real, real) -> real,
    parents: (F, F),
    bound: (F, F),
    lower: F::Wide,
    higher: F::Wide,
    u: F::Wide,
)
    requires
        can_cross(readings, power, parents, bound, lower, u),
        can_cross(readings, power, parents, bound, higher, u),
        variation::within(parents.0, bound),
        variation::within(parents.1, bound),
        readings.wide.at(lower) <= readings.wide.at(higher),
    ensures
        ({
            let (a, b) = (readings.narrow.at(parents.0), readings.narrow.at(parents.1));
            let (least, most) = if a < b {
                (a, b)
            } else {
                (b, a)
            };
            let near = variation::crossed(parents, bound, higher, u);
            let far = variation::crossed(parents, bound, lower, u);
            &&& exact::size(readings.narrow.at(near.0) - least) <= exact::size(
                readings.narrow.at(far.0) - least,
            )
            &&& exact::size(readings.narrow.at(near.1) - most) <= exact::size(
                readings.narrow.at(far.1) - most,
            )
        }),
{
    let (narrow, wide) = (readings.narrow, readings.wide);
    let (a, b) = (narrow.at(parents.0), narrow.at(parents.1));
    let (l, h) = (narrow.at(bound.0), narrow.at(bound.1));
    law_children_lie_around_the_middle(readings, power, parents, bound, lower, u);
    law_children_lie_around_the_middle(readings, power, parents, bound, higher, u);
    exact::lemma_at(narrow, parents.0);
    exact::lemma_at(narrow, parents.1);
    exact::lemma_at(narrow, bound.0);
    exact::lemma_at(narrow, bound.1);
    exact::lemma_at(wide, lower);
    exact::lemma_at(wide, higher);
    exact::lemma_at(wide, u);
    exact::lemma_order(narrow, bound.0, parents.0, l, a);
    exact::lemma_order(narrow, parents.0, bound.1, a, h);
    exact::lemma_order(narrow, bound.0, parents.1, l, b);
    exact::lemma_order(narrow, parents.1, bound.1, b, h);
    law_higher_index_spreads_less(
        wide,
        power,
        lower,
        higher,
        u,
        wide.at(lower),
        wide.at(higher),
        wide.at(u),
    );
    let (f, g) = (
        wide.at(variation::spread_factor(lower, u)),
        wide.at(variation::spread_factor(higher, u)),
    );
    let d = exact::size(a - b);
    assert(f <= g <= 1 as real ==> f * d <= g * d <= d) by (nonlinear_arith)
        requires
            d >= 0 as real,
    ;
    assert(1 as real <= g <= f ==> d <= g * d <= f * d) by (nonlinear_arith)
        requires
            d >= 0 as real,
    ;
    let (least, most) = if a < b {
        (a, b)
    } else {
        (b, a)
    };
    assert(a + b == least + most && d == most - least);
    if d >= closeness() {
        lemma_clamped_distance(
            (a + b - f * d) / 2 as real,
            (a + b - g * d) / 2 as real,
            least,
            l,
            h,
        );
        lemma_clamped_distance(
            (a + b + f * d) / 2 as real,
            (a + b + g * d) / 2 as real,
            most,
            l,
            h,
        );
    }
}

/// The weight of one in the mean that mutation takes, for the random number `t`: twice its distance
/// from the nearer of zero and one.
pub open spec fn stay(t: real) -> real {
    if 2 as real * t < 1 as real {
        2 as real * t
    } else {
        2 as real * (1 as real - t)
    }
}

/// The mean of one and `z` to the given power.
spec fn blend(power: spec_fn(real, real) -> real, w: real, z: real, p: real) -> real {
    power(exact::mean(w, 1 as real, power(z, p)), 1 as real / p)
}

/// The mean lies between `z` and one, and its power is the mean of the powers.
proof fn lemma_blend(power: spec_fn(real, real) -> real, w: real, z: real, p: real)
    requires
        exact::is_power(power),
        0 as real <= w <= 1 as real,
        0 as real <= z <= 1 as real,
        p >= 1 as real,
    ensures
        z <= blend(power, w, z, p) <= 1 as real,
        power(blend(power, w, z, p), p) == exact::mean(w, 1 as real, power(z, p)),
        0 as real <= power(z, p) <= exact::mean(w, 1 as real, power(z, p)) <= 1 as real,
{
    exact::lemma_power(power, z, 1 as real, p);
    let s = power(z, p);
    let m = exact::mean(w, 1 as real, s);
    assert(s <= m <= 1 as real) by (nonlinear_arith)
        requires
            m == w * 1 as real + (1 as real - w) * s,
            0 as real <= w <= 1 as real,
            s <= 1 as real,
    ;
    exact::lemma_root_of_power(power, m, p);
    exact::lemma_root_of_power(power, z, p);
    exact::lemma_power(power, s, m, 1 as real / p);
    exact::lemma_power(power, m, 1 as real, 1 as real / p);
}

/// Means grow with their powers.
proof fn lemma_blend_grows(
    power: spec_fn(real, real) -> real,
    w: real,
    z: real,
    p: real,
    q: real,
)
    requires
        exact::is_power(power),
        0 as real <= w <= 1 as real,
        0 as real <= z <= 1 as real,
        1 as real <= p <= q,
    ensures
        blend(power, w, z, p) <= blend(power, w, z, q),
{
    let one = 1 as real;
    let (s, r) = (power(z, p), q / p);
    let m = exact::mean(w, one, s);
    lemma_blend(power, w, z, p);
    assert(r >= 1 as real && p * r == q && r * (one / q) == one / p && one / q > 0 as real)
        by (nonlinear_arith)
        requires
            one == 1 as real,
            1 as real <= p <= q,
            r == q / p,
    ;
    exact::lemma_power_is_convex(power, one, s, w, r);
    exact::lemma_power(power, one, one, r);
    exact::lemma_power_of_power(power, z, p, r);
    exact::lemma_power(power, m, m, r);
    exact::lemma_power(power, power(m, r), exact::mean(w, one, power(z, q)), one / q);
    exact::lemma_power_of_power(power, m, r, one / q);
}

/// The real number that the mean of a mutation stands for.
proof fn lemma_mean<W: Real>(
    reading: Reading<W>,
    power: spec_fn(real, real) -> real,
    u: W,
    y: W,
    exponent: W,
    t: real,
    z: real,
    p: real,
)
    requires
        exact::keeps_powers(reading, power),
        reading.reads(u, t),
        reading.reads(y, z),
        reading.reads(exponent, p),
        0 as real <= t <= 1 as real,
        0 as real <= z <= 1 as real,
        p >= 1 as real,
    ensures
        reading.reads(variation::mutation_mean(u, y, exponent), blend(power, stay(t), z, p)),
        u.spec_less(variation::half()) == (2 as real * t < 1 as real),
{
    exact::lemma_keeps_powers(reading, power);
    exact::lemma_ideal_constants(reading);
    let (one, two, half) = (float::one::<W>(), variation::two::<W>(), variation::half::<W>());
    exact::lemma_ideal(reading, one, exponent, 1 as real, p);
    exact::lemma_root_of_power(power, z, p);
    let root = one.spec_over(exponent);
    exact::lemma_power_reads(reading, power, y, exponent, z, p);
    lemma_blend(power, stay(t), z, p);
    let (rest, s) = (y.spec_power(exponent), power(z, p));
    exact::lemma_order(reading, u, half, t, 1 as real / 2 as real);
    let m = exact::mean(stay(t), 1 as real, s);
    if 2 as real * t < 1 as real {
        exact::lemma_ideal(reading, two, u, 2 as real, t);
        let (twice, w) = (two.spec_times(u), 2 as real * t);
        exact::lemma_ideal(reading, one, twice, 1 as real, w);
        exact::lemma_ideal(reading, one.spec_minus(twice), rest, 1 as real - w, s);
        let part = one.spec_minus(twice).spec_times(rest);
        exact::lemma_ideal(reading, twice, part, w, (1 as real - w) * s);
        assert(w + (1 as real - w) * s == m);
        exact::lemma_power_reads(
            reading,
            power,
            twice.spec_plus(part),
            root,
            m,
            1 as real / p,
        );
    } else {
        exact::lemma_ideal(reading, one, u, 1 as real, t);
        exact::lemma_ideal(reading, two, one.spec_minus(u), 2 as real, 1 as real - t);
        let (left, w) = (two.spec_times(one.spec_minus(u)), 2 as real * (1 as real - t));
        exact::lemma_ideal(reading, u, half, t, 1 as real / 2 as real);
        exact::lemma_ideal(
            reading,
            two,
            u.spec_minus(half),
            2 as real,
            t - 1 as real / 2 as real,
        );
        let v = two.spec_times(u.spec_minus(half));
        assert(2 as real * (t - 1 as real / 2 as real) == 1 as real - w);
        exact::lemma_ideal(reading, v, rest, 1 as real - w, s);
        let part = v.spec_times(rest);
        exact::lemma_ideal(reading, left, part, w, (1 as real - w) * s);
        assert(w + (1 as real - w) * s == m);
        exact::lemma_power_reads(reading, power, left.spec_plus(part), root, m, 1 as real / p);
    }
}

/// Where nothing is rounded, means grow with their powers.
pub proof fn law_exact_means_grow<W: Real>(
    reading: Reading<W>,
    power: spec_fn(real, real) -> real,
)
    requires
        exact::keeps_powers(reading, power),
    ensures
        variation::has_growing_means::<W>(),
{
    exact::lemma_keeps_powers(reading, power);
    exact::lemma_ideal_constants(reading);
    let (zero, one) = (float::zero::<W>(), float::one::<W>());
    assert forall|u: W, y: W, p: W, q: W|
        float::at_most(zero, u) && u.spec_less(one) && float::at_most(zero, y) && float::at_most(
            y,
            one,
        ) && float::at_most(one, p) && float::at_most(p, q) && float::finite(q) implies {
        let (a, b) = (
            #[trigger] variation::mutation_mean(u, y, p),
            #[trigger] variation::mutation_mean(u, y, q),
        );
        &&& float::at_most(zero, a)
        &&& float::at_most(a, b)
        &&& float::at_most(b, one)
    } by {
        exact::lemma_order(reading, zero, one, 0 as real, 1 as real);
        exact::lemma_order(reading, one, zero, 1 as real, 0 as real);
        variation::lemma_within_is_finite(u, (zero, one));
        variation::lemma_within_is_finite(y, (zero, one));
        variation::lemma_within_is_finite(p, (one, q));
        exact::lemma_at(reading, u);
        exact::lemma_at(reading, y);
        exact::lemma_at(reading, p);
        exact::lemma_at(reading, q);
        let (t, z) = (reading.at(u), reading.at(y));
        let (e, f) = (reading.at(p), reading.at(q));
        exact::lemma_order(reading, zero, u, 0 as real, t);
        exact::lemma_order(reading, u, one, t, 1 as real);
        exact::lemma_order(reading, zero, y, 0 as real, z);
        exact::lemma_order(reading, y, one, z, 1 as real);
        exact::lemma_order(reading, one, p, 1 as real, e);
        exact::lemma_order(reading, p, q, e, f);
        lemma_mean(reading, power, u, y, p, t, z, e);
        lemma_mean(reading, power, u, y, q, t, z, f);
        let w = stay(t);
        lemma_blend(power, w, z, e);
        lemma_blend(power, w, z, f);
        lemma_blend_grows(power, w, z, e, f);
        let (a, b) = (variation::mutation_mean(u, y, p), variation::mutation_mean(u, y, q));
        let (c, d) = (blend(power, w, z, e), blend(power, w, z, f));
        exact::lemma_order(reading, zero, a, 0 as real, c);
        exact::lemma_order(reading, a, b, c, d);
        exact::lemma_order(reading, b, one, d, 1 as real);
    }
}

/// Whether all numbers that mutation works with are finite, the bounds are apart, and the value is
/// between them.
pub open spec fn can_mutate<F: ArgminFloat>(
    readings: Readings<F, F::Wide>,
    power: spec_fn(real, real) -> real,
    x: F,
    bound: (F, F),
    eta: F::Wide,
    u: F::Wide,
) -> bool {
    &&& exact::are_exact::<F>(readings)
    &&& exact::keeps_powers(readings.wide, power)
    &&& float::finite(x) && float::finite(bound.0) && float::finite(bound.1) && float::finite(eta)
        && float::finite(u)
    &&& bound.0.spec_less(bound.1)
    &&& variation::within(x, bound)
    &&& readings.wide.at(eta) >= 0 as real
    &&& 0 as real <= readings.wide.at(u) <= 1 as real
}

/// Random numbers below one half move a value down and the others up, and never past the bounds. The
/// share of the range that a value keeps clear of, raised to the distribution index plus one, is a
/// mean of one and of what that is for the bound, by the random number.
pub proof fn law_mutation_moves_by_chance<F: ArgminFloat>(
    readings: Readings<F, F::Wide>,
    power: spec_fn(real, real) -> real,
    x: F,
    bound: (F, F),
    eta: F::Wide,
    u: F::Wide,
)
    requires
        can_mutate(readings, power, x, bound, eta, u),
    ensures
        (readings.narrow.value)(variation::mutated(x, bound, eta, u)) matches Some(v) && {
            let y = readings.narrow.at(x);
            let (l, h) = (readings.narrow.at(bound.0), readings.narrow.at(bound.1));
            let (t, p) = (readings.wide.at(u), readings.wide.at(eta) + 1 as real);
            let one = 1 as real;
            if 2 as real * t < one {
                &&& l <= v <= y
                &&& power(one - (y - v) / (h - l), p) == 2 as real * t + (one - 2 as real * t)
                    * power(one - (y - l) / (h - l), p)
            } else {
                &&& y <= v <= h
                &&& power(one - (v - y) / (h - l), p) == 2 as real * (one - t) + (2 as real * t
                    - one) * power(one - (h - y) / (h - l), p)
            }
        },
{
    let (narrow, wide) = (readings.narrow, readings.wide);
    exact::lemma_keeps_powers(wide, power);
    exact::lemma_ideal_constants(wide);
    let one = float::one::<F::Wide>();
    let y = narrow.at(x);
    let (l, h) = (narrow.at(bound.0), narrow.at(bound.1));
    let (t, e) = (wide.at(u), wide.at(eta));
    exact::lemma_at(narrow, x);
    exact::lemma_at(narrow, bound.0);
    exact::lemma_at(narrow, bound.1);
    exact::lemma_at(wide, eta);
    exact::lemma_at(wide, u);
    exact::lemma_order(narrow, bound.0, bound.1, l, h);
    exact::lemma_order(narrow, bound.0, x, l, y);
    exact::lemma_order(narrow, x, bound.1, y, h);
    let (yw, low, high) = (x.spec_widen(), bound.0.spec_widen(), bound.1.spec_widen());
    assert(wide.reads(yw, y) && wide.reads(low, l) && wide.reads(high, h));
    exact::lemma_ideal(wide, high, low, h, l);
    exact::lemma_ideal(wide, yw, low, y, l);
    exact::lemma_ideal(wide, high, yw, h, y);
    let (range, r) = (high.spec_minus(low), h - l);
    exact::lemma_ideal(wide, yw.spec_minus(low), range, y - l, r);
    exact::lemma_ideal(wide, high.spec_minus(yw), range, h - y, r);
    let below = yw.spec_minus(low).spec_over(range);
    let above = high.spec_minus(yw).spec_over(range);
    let (b, c) = ((y - l) / r, (h - y) / r);
    assert(0 as real <= b <= 1 as real && 0 as real <= c <= 1 as real && b * r == y - l && c * r == h
        - y) by (nonlinear_arith)
        requires
            b == (y - l) / r,
            c == (h - y) / r,
            r == h - l,
            l <= y <= h,
            l < h,
    ;
    exact::lemma_ideal(wide, one, below, 1 as real, b);
    exact::lemma_ideal(wide, one, above, 1 as real, c);
    exact::lemma_ideal(wide, eta, one, e, 1 as real);
    let (exponent, p) = (eta.spec_plus(one), e + 1 as real);
    let (z, zw) = if 2 as real * t < 1 as real {
        (1 as real - b, one.spec_minus(below))
    } else {
        (1 as real - c, one.spec_minus(above))
    };
    lemma_mean(wide, power, u, zw, exponent, t, z, p);
    let w = stay(t);
    lemma_blend(power, w, z, p);
    let (m, k) = (variation::mutation_mean(u, zw, exponent), blend(power, w, z, p));
    exact::lemma_ideal(wide, m, one, k, 1 as real);
    exact::lemma_ideal(wide, one, m, 1 as real, k);
    let step = variation::mutation_step(below, above, eta, u);
    let d = if 2 as real * t < 1 as real {
        k - 1 as real
    } else {
        1 as real - k
    };
    assert(wide.reads(step, d));
    exact::lemma_ideal(wide, step, range, d, r);
    let moved = yw.spec_plus(step.spec_times(range));
    exact::lemma_ideal(wide, yw, step.spec_times(range), y, d * r);
    let v = y + d * r;
    exact::lemma_ideal_held(wide, moved, low, high, v, l, h);
    if 2 as real * t < 1 as real {
        lemma_step_down(y, v, k, b, r);
    } else {
        lemma_step_up(y, v, k, c, r);
    }
    assert(wide.reads(variation::held(moved, low, high), exact::clamped(v, l, h)));
}

proof fn lemma_step_down(y: real, v: real, k: real, b: real, r: real)
    requires
        r > 0 as real,
        1 as real - b <= k <= 1 as real,
        v == y + (k - 1 as real) * r,
    ensures
        y - b * r <= v <= y,
        1 as real - (y - v) / r == k,
{
    assert(y - b * r <= v <= y) by (nonlinear_arith)
        requires
            r > 0 as real,
            1 as real - b <= k <= 1 as real,
            v == y + (k - 1 as real) * r,
    ;
    assert((y - v) / r == 1 as real - k) by (nonlinear_arith)
        requires
            r > 0 as real,
            v == y + (k - 1 as real) * r,
    ;
}

proof fn lemma_step_up(y: real, v: real, k: real, c: real, r: real)
    requires
        r > 0 as real,
        1 as real - c <= k <= 1 as real,
        v == y + (1 as real - k) * r,
    ensures
        y <= v <= y + c * r,
        1 as real - (v - y) / r == k,
{
    assert(y <= v <= y + c * r) by (nonlinear_arith)
        requires
            r > 0 as real,
            1 as real - c <= k <= 1 as real,
            v == y + (1 as real - k) * r,
    ;
    assert((v - y) / r == 1 as real - k) by (nonlinear_arith)
        requires
            r > 0 as real,
            v == y + (1 as real - k) * r,
    ;
}

/// What is kept clear of a value, as a share of the range.
proof fn lemma_share(y: real, v: real, l: real, r: real)
    requires
        r > 0 as real,
        l <= v <= y,
        y - l <= r,
    ensures
        0 as real <= 1 as real - (y - v) / r <= 1 as real,
{
    assert(0 as real <= (y - v) / r <= 1 as real) by (nonlinear_arith)
        requires
            r > 0 as real,
            l <= v <= y,
            y - l <= r,
    ;
}

/// Shares of the range compare like the values.
proof fn lemma_share_order(y: real, v: real, w: real, r: real)
    requires
        r > 0 as real,
    ensures
        1 as real - (y - v) / r <= 1 as real - (y - w) / r <==> v <= w,
{
    assert((y - w) / r <= (y - v) / r <==> v <= w) by (nonlinear_arith)
        requires
            r > 0 as real,
    ;
}

/// Greater random numbers give greater values: the greater of two random numbers never puts a value
/// below where the lesser one puts it.
pub proof fn law_mutation_grows_with_chance<F: ArgminFloat>(
    readings: Readings<F, F::Wide>,
    power: spec_fn(real, real) -> real,
    x: F,
    bound: (F, F),
    eta: F::Wide,
    u: F::Wide,
    v: F::Wide,
)
    requires
        can_mutate(readings, power, x, bound, eta, u),
        can_mutate(readings, power, x, bound, eta, v),
        readings.wide.at(u) <= readings.wide.at(v),
    ensures
        readings.narrow.at(variation::mutated(x, bound, eta, u)) <= readings.narrow.at(
            variation::mutated(x, bound, eta, v),
        ),
{
    law_mutation_moves_by_chance(readings, power, x, bound, eta, u);
    law_mutation_moves_by_chance(readings, power, x, bound, eta, v);
    exact::lemma_keeps_powers(readings.wide, power);
    let y = readings.narrow.at(x);
    let (l, h) = (readings.narrow.at(bound.0), readings.narrow.at(bound.1));
    let (s, t) = (readings.wide.at(u), readings.wide.at(v));
    let p = readings.wide.at(eta) + 1 as real;
    let a = readings.narrow.at(variation::mutated(x, bound, eta, u));
    let b = readings.narrow.at(variation::mutated(x, bound, eta, v));
    let (one, two, r) = (1 as real, 2 as real, h - l);
    exact::lemma_at(readings.narrow, x);
    exact::lemma_at(readings.narrow, bound.0);
    exact::lemma_at(readings.narrow, bound.1);
    exact::lemma_order(readings.narrow, bound.0, bound.1, l, h);
    exact::lemma_order(readings.narrow, bound.0, x, l, y);
    exact::lemma_order(readings.narrow, x, bound.1, y, h);
    if two * t < one {
        let z = power(one - (y - l) / r, p);
        lemma_share(y, l, l, r);
        lemma_share(y, a, l, r);
        lemma_share(y, b, l, r);
        exact::lemma_power(power, one - (y - l) / r, one, p);
        assert(two * s + (one - two * s) * z <= two * t + (one - two * t) * z) by (nonlinear_arith)
            requires
                s <= t,
                z <= 1 as real,
                one == 1 as real,
                two == 2 as real,
        ;
        exact::lemma_power_order(power, one - (y - a) / r, one - (y - b) / r, p);
        lemma_share_order(y, a, b, r);
    } else if two * s >= one {
        let z = power(one - (h - y) / r, p);
        lemma_share(h, y, l, r);
        lemma_share(a, y, l, r);
        lemma_share(b, y, l, r);
        exact::lemma_power(power, one - (h - y) / r, one, p);
        assert(two * (one - t) + (two * t - one) * z <= two * (one - s) + (two * s - one) * z)
            by (nonlinear_arith)
            requires
                s <= t,
                z <= 1 as real,
                one == 1 as real,
                two == 2 as real,
        ;
        exact::lemma_power_order(power, one - (b - y) / r, one - (a - y) / r, p);
        lemma_share_order(-y, -b, -a, r);
        assert(-y - (-b) == b - y && -y - (-a) == a - y);
    }
}

/// Mutation reaches from bound to bound: the random number zero puts a value at the lower bound, one
/// half leaves it where it is, and one would put it at the upper bound.
pub proof fn law_mutation_reaches_the_bounds<F: ArgminFloat>(
    readings: Readings<F, F::Wide>,
    power: spec_fn(real, real) -> real,
    x: F,
    bound: (F, F),
    eta: F::Wide,
    u: F::Wide,
)
    requires
        can_mutate(readings, power, x, bound, eta, u),
    ensures
        ({
            let v = readings.narrow.at(variation::mutated(x, bound, eta, u));
            let t = readings.wide.at(u);
            &&& t == 0 as real ==> v == readings.narrow.at(bound.0)
            &&& 2 as real * t == 1 as real ==> v == readings.narrow.at(x)
            &&& t == 1 as real ==> v == readings.narrow.at(bound.1)
        }),
{
    law_mutation_moves_by_chance(readings, power, x, bound, eta, u);
    exact::lemma_keeps_powers(readings.wide, power);
    let y = readings.narrow.at(x);
    let (l, h) = (readings.narrow.at(bound.0), readings.narrow.at(bound.1));
    let (t, p) = (readings.wide.at(u), readings.wide.at(eta) + 1 as real);
    let v = readings.narrow.at(variation::mutated(x, bound, eta, u));
    let (one, r) = (1 as real, h - l);
    exact::lemma_at(readings.narrow, x);
    exact::lemma_at(readings.narrow, bound.0);
    exact::lemma_at(readings.narrow, bound.1);
    exact::lemma_order(readings.narrow, bound.0, bound.1, l, h);
    exact::lemma_order(readings.narrow, bound.0, x, l, y);
    exact::lemma_order(readings.narrow, x, bound.1, y, h);
    if t == 0 as real {
        let z = one - (y - l) / r;
        assert(power(one - (y - v) / r, p) == power(z, p));
        lemma_share(y, l, l, r);
        lemma_share(y, v, l, r);
        exact::lemma_power_order(power, one - (y - v) / r, z, p);
        lemma_share_order(y, v, l, r);
    } else if 2 as real * t == one {
        lemma_share(v, y, l, r);
        let z = power(one - (h - y) / r, p);
        assert((2 as real * t - one) * z == 0 as real) by (nonlinear_arith)
            requires
                2 as real * t == one,
        ;
        exact::lemma_power(power, one, one, p);
        exact::lemma_power_order(power, one, one - (v - y) / r, p);
        lemma_share_order(-y, -y, -v, r);
        assert(-y - (-v) == v - y && -y - (-y) == 0 as real);
        assert((0 as real) / r == 0 as real) by (nonlinear_arith)
            requires
                r > 0 as real,
        ;
    } else if t == one {
        let z = one - (h - y) / r;
        assert(power(one - (v - y) / r, p) == power(z, p));
        lemma_share(h, y, l, r);
        lemma_share(v, y, l, r);
        exact::lemma_power_order(power, one - (v - y) / r, z, p);
        lemma_share_order(-y, -v, -h, r);
        assert(-y - (-v) == v - y && -y - (-h) == h - y);
    }
}

/// A value is placed the given fraction of the way from its lower to its upper bound.
pub proof fn law_values_are_placed_by_fraction<F: ArgminFloat>(
    readings: Readings<F, F::Wide>,
    bound: (F, F),
    u: F::Wide,
)
    requires
        exact::are_exact::<F>(readings),
        float::finite(bound.0) && float::finite(bound.1) && float::finite(u),
    ensures
        (readings.narrow.value)(variation::value_at(bound, u)) matches Some(v) && v
            - readings.narrow.at(bound.0) == readings.wide.at(u) * (readings.narrow.at(bound.1)
            - readings.narrow.at(bound.0)),
{
    let (narrow, wide) = (readings.narrow, readings.wide);
    let (l, h, t) = (narrow.at(bound.0), narrow.at(bound.1), wide.at(u));
    exact::lemma_at(narrow, bound.0);
    exact::lemma_at(narrow, bound.1);
    exact::lemma_at(wide, u);
    let (low, high) = (bound.0.spec_widen(), bound.1.spec_widen());
    assert(wide.reads(low, l) && wide.reads(high, h));
    exact::lemma_ideal(wide, high, low, h, l);
    exact::lemma_ideal(wide, u, high.spec_minus(low), t, h - l);
    exact::lemma_ideal(wide, low, u.spec_times(high.spec_minus(low)), l, t * (h - l));
    assert(wide.reads(low.spec_plus(u.spec_times(high.spec_minus(low))), l + t * (h - l)));
}

/// The values of two parents are passed on where a random number above one half was drawn to decide
/// whether they cross, and are crossed otherwise. A value is left alone where the number that was
/// drawn exceeds the probability of mutation, and is mutated otherwise.
pub proof fn law_chance_decides<F: ArgminFloat>(
    readings: Readings<F, F::Wide>,
    parents: (F, F),
    bound: (F, F),
    probability: F,
    eta: F::Wide,
    decision: F::Wide,
    u: F::Wide,
)
    requires
        exact::are_exact::<F>(readings),
        float::finite(probability) && float::finite(decision),
    ensures
        ({
            let t = readings.wide.at(decision);
            &&& variation::crossed_at(parents, bound, eta, decision, u) == if 2 as real * t
                > 1 as real {
                parents
            } else {
                variation::crossed(parents, bound, eta, u)
            }
            &&& variation::mutated_at(parents.0, bound, probability, eta, decision, u) == if t
                > readings.narrow.at(probability) {
                parents.0
            } else {
                variation::mutated(parents.0, bound, eta, u)
            }
        }),
{
    let (narrow, wide) = (readings.narrow, readings.wide);
    exact::lemma_at(wide, decision);
    exact::lemma_at(narrow, probability);
    exact::lemma_ideal_constants(wide);
    let t = wide.at(decision);
    exact::lemma_order(wide, variation::half(), decision, 1 as real / 2 as real, t);
    let p = probability.spec_widen();
    assert(wide.reads(p, narrow.at(probability)));
    exact::lemma_order(wide, p, decision, narrow.at(probability), t);
}

} // verus!
