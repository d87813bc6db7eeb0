//! How new decision variables come from old ones.

use crate::float;
use crate::float::{ArgminFloat, Real};
use crate::random;
use vstd::prelude::*;

verus! {

/// Two.
pub open spec fn two<F: Real>() -> F {
    F::spec_decimal(2, 0)
}

/// One half.
pub open spec fn half<F: Real>() -> F {
    F::spec_decimal(5, 1)
}

/// The value a fraction `u` of the way from the lower to the upper bound.
pub open spec fn value_at<F: ArgminFloat>(bound: (F, F), u: F::Wide) -> F {
    let low = bound.0.spec_widen();
    let range = bound.1.spec_widen().spec_minus(low);
    F::spec_narrow(low.spec_plus(u.spec_times(range)))
}

/// How far simulated binary crossover spreads the children, relative to the parents, for the
/// distribution index `eta` and the random number `u`.
pub open spec fn spread_factor<W: Real>(eta: W, u: W) -> W {
    let exponent = float::one::<W>().spec_over(eta.spec_plus(float::one()));
    if float::at_most(u, half()) {
        two::<W>().spec_times(u).spec_power(exponent)
    } else {
        float::one::<W>().spec_over(two::<W>().spec_times(float::one::<W>().spec_minus(u))).spec_power(exponent)
    }
}

/// `x` held between the bounds.
pub open spec fn held<W: Real>(x: W, low: W, high: W) -> W {
    float::smaller(float::larger(x, low), high)
}

/// The two children of simulated binary crossover: they lie around the middle of the parents,
/// held between the bounds. Parents that hardly differ are passed on.
pub open spec fn crossed<F: ArgminFloat>(
    parents: (F, F),
    bound: (F, F),
    eta: F::Wide,
    u: F::Wide,
) -> (F, F) {
    let y1 = parents.0.spec_widen();
    let y2 = parents.1.spec_widen();
    let low = bound.0.spec_widen();
    let high = bound.1.spec_widen();
    if y1.spec_minus(y2).spec_magnitude().spec_less(F::Wide::spec_decimal(1, 14)) {
        parents
    } else {
        let distance = if y1.spec_less(y2) {
            y2.spec_minus(y1)
        } else {
            y1.spec_minus(y2)
        };
        let reach = spread_factor(eta, u).spec_times(distance);
        let sum = y1.spec_plus(y2);
        (
            F::spec_narrow(held(half::<F::Wide>().spec_times(sum.spec_minus(reach)), low, high)),
            F::spec_narrow(held(half::<F::Wide>().spec_times(sum.spec_plus(reach)), low, high)),
        )
    }
}

/// The mean of one and `y` to the given power, with weights that follow from the random number `u`:
/// twice the distance of `u` from the nearer of zero and one is the weight of one.
pub open spec fn mutation_mean<W: Real>(u: W, y: W, power: W) -> W {
    let exponent = float::one::<W>().spec_over(power);
    let rest = y.spec_power(power);
    if u.spec_less(half()) {
        let twice = two::<W>().spec_times(u);
        twice.spec_plus(float::one::<W>().spec_minus(twice).spec_times(rest)).spec_power(exponent)
    } else {
        two::<W>().spec_times(float::one::<W>().spec_minus(u)).spec_plus(
            two::<W>().spec_times(u.spec_minus(half())).spec_times(rest),
        ).spec_power(exponent)
    }
}

/// How far polynomial mutation moves a value, relative to the whole range, for a value that lies
/// the fraction `below` of the range above the lower and `above` below the upper bound.
pub open spec fn mutation_step<W: Real>(below: W, above: W, eta: W, u: W) -> W {
    let power = eta.spec_plus(float::one());
    if u.spec_less(half()) {
        mutation_mean(u, float::one::<W>().spec_minus(below), power).spec_minus(float::one())
    } else {
        float::one::<W>().spec_minus(
            mutation_mean(u, float::one::<W>().spec_minus(above), power),
        )
    }
}

/// The outcome of polynomial mutation, held between the bounds.
pub open spec fn mutated<F: ArgminFloat>(x: F, bound: (F, F), eta: F::Wide, u: F::Wide) -> F {
    let y = x.spec_widen();
    let low = bound.0.spec_widen();
    let high = bound.1.spec_widen();
    let range = high.spec_minus(low);
    let below = y.spec_minus(low).spec_over(range);
    let above = high.spec_minus(y).spec_over(range);
    let moved = y.spec_plus(mutation_step(below, above, eta, u).spec_times(range));
    F::spec_narrow(held(moved, low, high))
}

/// What becomes of two values of parents where `v` was drawn to decide whether they cross, and `u`
/// how.
pub open spec fn crossed_at<F: ArgminFloat>(
    parents: (F, F),
    bound: (F, F),
    eta: F::Wide,
    v: F::Wide,
    u: F::Wide,
) -> (F, F) {
    if half::<F::Wide>().spec_less(v) {
        parents
    } else {
        crossed(parents, bound, eta, u)
    }
}

/// What becomes of a value where `t` was drawn to decide whether it is mutated, and `u` how.
pub open spec fn mutated_at<F: ArgminFloat>(
    x: F,
    bound: (F, F),
    probability: F,
    eta: F::Wide,
    t: F::Wide,
    u: F::Wide,
) -> F {
    if probability.spec_widen().spec_less(t) {
        x
    } else {
        mutated(x, bound, eta, u)
    }
}

/// Whether two values of parents hardly differ.
pub open spec fn are_close<F: ArgminFloat>(parents: (F, F)) -> bool {
    parents.0.spec_widen().spec_minus(parents.1.spec_widen()).spec_magnitude().spec_less(
        F::Wide::spec_decimal(1, 14),
    )
}

/// How many words have been drawn before the values at position `i` of two parents are crossed:
/// one for the decision to cross at all, then one for each position, and another one for each
/// position at which the values cross and differ.
pub open spec fn crossing_draws<F: ArgminFloat>(
    parents: (Seq<F>, Seq<F>),
    words: Map<nat, u64>,
    i: nat,
) -> nat
    decreases i,
{
    if i == 0 {
        1
    } else {
        let d = crossing_draws(parents, words, (i - 1) as nat);
        if half::<F::Wide>().spec_less(random::unit_at(words, d)) || are_close(
            (parents.0[i - 1], parents.1[i - 1]),
        ) {
            d + 1
        } else {
            d + 2
        }
    }
}

/// What becomes of the values at position `i` of two parents that cross.
pub open spec fn crossing_at<F: ArgminFloat>(
    bounds: Seq<(F, F)>,
    eta: F,
    parents: (Seq<F>, Seq<F>),
    words: Map<nat, u64>,
    i: int,
) -> (F, F) {
    let d = crossing_draws(parents, words, i as nat);
    crossed_at(
        (parents.0[i], parents.1[i]),
        bounds[i],
        eta.spec_widen(),
        random::unit_at(words, d),
        random::unit_at(words, d + 1),
    )
}

/// The children of two parents, with the words that a generator has yet to give. Unless the first
/// number drawn exceeds the probability, each pair of values crosses on its own.
pub open spec fn crossing<F: ArgminFloat>(
    bounds: Seq<(F, F)>,
    probability: F,
    eta: F,
    parents: (Seq<F>, Seq<F>),
    words: Map<nat, u64>,
) -> (Seq<F>, Seq<F>) {
    if probability.spec_widen().spec_less(random::unit_at(words, 0)) {
        parents
    } else {
        (
            Seq::new(
                parents.0.len(),
                |i: int| crossing_at(bounds, eta, parents, words, i).0,
            ),
            Seq::new(
                parents.1.len(),
                |i: int|
                    if i < parents.0.len() {
                        crossing_at(bounds, eta, parents, words, i).1
                    } else {
                        parents.1[i]
                    },
            ),
        )
    }
}

/// How many words crossing two parents takes.
pub open spec fn crossing_length<F: ArgminFloat>(
    probability: F,
    parents: (Seq<F>, Seq<F>),
    words: Map<nat, u64>,
) -> nat {
    if probability.spec_widen().spec_less(random::unit_at(words, 0)) {
        1
    } else {
        crossing_draws(parents, words, parents.0.len())
    }
}

/// How many words have been drawn before the value at position `i` is mutated: one for each
/// position, and another one for each position at which the first does not exceed the probability.
pub open spec fn mutation_draws<F: ArgminFloat>(
    probability: F,
    words: Map<nat, u64>,
    i: nat,
) -> nat
    decreases i,
{
    if i == 0 {
        0
    } else {
        let d = mutation_draws(probability, words, (i - 1) as nat);
        if probability.spec_widen().spec_less(random::unit_at(words, d)) {
            d + 1
        } else {
            d + 2
        }
    }
}

/// What becomes of the value at position `i` by mutation.
pub open spec fn mutation_at<F: ArgminFloat>(
    bounds: Seq<(F, F)>,
    probability: F,
    eta: F,
    x: Seq<F>,
    words: Map<nat, u64>,
    i: int,
) -> F {
    let d = mutation_draws(probability, words, i as nat);
    mutated_at(
        x[i],
        bounds[i],
        probability,
        eta.spec_widen(),
        random::unit_at(words, d),
        random::unit_at(words, d + 1),
    )
}

/// What becomes of some values by mutation, with the words that a generator has yet to give.
pub open spec fn mutation<F: ArgminFloat>(
    bounds: Seq<(F, F)>,
    probability: F,
    eta: F,
    x: Seq<F>,
    words: Map<nat, u64>,
) -> Seq<F> {
    Seq::new(x.len(), |i: int| mutation_at(bounds, probability, eta, x, words, i))
}

/// The values that the words of a generator place between their bounds, one word for each.
pub open spec fn placing<F: ArgminFloat>(bounds: Seq<(F, F)>, words: Map<nat, u64>) -> Seq<F> {
    Seq::new(bounds.len(), |i: int| value_at(bounds[i], random::unit_at(words, i as nat)))
}

/// Whether a value is a random fraction of the way between its bounds.
pub open spec fn is_random_value<F: ArgminFloat>(bound: (F, F), x: F) -> bool {
    exists|u: F::Wide| #[trigger] random::is_unit(u) && x == value_at(bound, u)
}

/// Whether every value is a random fraction of the way between its bounds.
pub open spec fn is_random_position<F: ArgminFloat>(bounds: Seq<(F, F)>, position: Seq<F>) -> bool {
    &&& position.len() == bounds.len()
    &&& forall|i: int|
        0 <= i < position.len() ==> is_random_value(bounds[i], #[trigger] position[i])
}

/// Whether two values can come from two parents: with one random number it is decided whether
/// they cross at all, and with another how.
pub open spec fn is_crossing_of_values<F: ArgminFloat>(
    parents: (F, F),
    bound: (F, F),
    eta: F::Wide,
    children: (F, F),
) -> bool {
    exists|v: F::Wide, u: F::Wide| #[trigger]
        random::is_unit(v) && #[trigger] random::is_unit(u) && children == crossed_at(
            parents,
            bound,
            eta,
            v,
            u,
        )
}

/// Whether two children can come from two parents. Unless a random number exceeds the
/// probability, each pair of values crosses on its own.
pub open spec fn is_crossing<F: ArgminFloat>(
    bounds: Seq<(F, F)>,
    probability: F,
    eta: F,
    parents: (Seq<F>, Seq<F>),
    children: (Seq<F>, Seq<F>),
) -> bool {
    exists|t: F::Wide| #[trigger]
        random::is_unit(t) && if probability.spec_widen().spec_less(t) {
            children == parents
        } else {
            &&& children.0.len() == parents.0.len()
            &&& children.1.len() == parents.1.len()
            &&& forall|i: int|
                0 <= i < parents.0.len() ==> is_crossing_of_values(
                    (parents.0[i], parents.1[i]),
                    bounds[i],
                    eta.spec_widen(),
                    (#[trigger] children.0[i], children.1[i]),
                )
            &&& forall|i: int|
                parents.0.len() <= i < parents.1.len() ==> #[trigger] children.1[i] == parents.1[i]
        }
}

/// Whether a value can come from another by mutation, which takes place unless a random number
/// exceeds the probability.
pub open spec fn is_mutation_of_value<F: ArgminFloat>(
    bound: (F, F),
    probability: F,
    eta: F,
    x: F,
    y: F,
) -> bool {
    exists|t: F::Wide, u: F::Wide| #[trigger]
        random::is_unit(t) && #[trigger] random::is_unit(u) && y == mutated_at(
            x,
            bound,
            probability,
            eta.spec_widen(),
            t,
            u,
        )
}

/// Whether every value can come from the corresponding one by mutation.
pub open spec fn is_mutation<F: ArgminFloat>(
    bounds: Seq<(F, F)>,
    probability: F,
    eta: F,
    x: Seq<F>,
    y: Seq<F>,
) -> bool {
    &&& y.len() == x.len()
    &&& forall|i: int|
        0 <= i < x.len() ==> is_mutation_of_value(bounds[i], probability, eta, x[i], #[trigger] y[i])
}

/// The value a fraction `u` of the way from the lower to the upper bound.
pub fn place<F: ArgminFloat>(bound: (F, F), u: F::Wide) -> (r: F)
    ensures
        r == value_at(bound, u),
{
    let low = bound.0.widen();
    let high = bound.1.widen();
    let range = high.minus(low);
    F::narrow(low.plus(u.times(range)))
}

/// `x` held between the bounds.
fn hold<W: Real>(x: W, low: W, high: W) -> (r: W)
    ensures
        r == held(x, low, high),
{
    float::smaller_of(float::larger_of(x, low), high)
}

/// The two children of simulated binary crossover for the random number `u`.
pub fn cross<F: ArgminFloat>(parents: (F, F), bound: (F, F), eta: F::Wide, u: F::Wide) -> (r: (F, F))
    ensures
        r == crossed(parents, bound, eta, u),
{
    let y1 = parents.0.widen();
    let y2 = parents.1.widen();
    if y1.minus(y2).magnitude().less(F::Wide::decimal(1, 14)) {
        return parents;
    }
    let one = F::Wide::decimal(1, 0);
    let two = F::Wide::decimal(2, 0);
    let half = F::Wide::decimal(5, 1);
    let (y_min, y_max) = if y1.less(y2) {
        (y1, y2)
    } else {
        (y2, y1)
    };
    let exponent = one.over(eta.plus(one));
    let beta = if float::is_at_most(u, half) {
        two.times(u).power(exponent)
    } else {
        one.over(two.times(one.minus(u))).power(exponent)
    };
    let c1 = half.times(y1.plus(y2).minus(beta.times(y_max.minus(y_min))));
    let c2 = half.times(y1.plus(y2).plus(beta.times(y_max.minus(y_min))));
    let low = bound.0.widen();
    let high = bound.1.widen();
    (F::narrow(hold(c1, low, high)), F::narrow(hold(c2, low, high)))
}

/// The outcome of polynomial mutation for the random number `u`.
pub fn mutate<F: ArgminFloat>(x: F, bound: (F, F), eta: F::Wide, u: F::Wide) -> (r: F)
    ensures
        r == mutated(x, bound, eta, u),
{
    let one = F::Wide::decimal(1, 0);
    let two = F::Wide::decimal(2, 0);
    let half = F::Wide::decimal(5, 1);
    let y = x.widen();
    let low = bound.0.widen();
    let high = bound.1.widen();
    let range = high.minus(low);
    let delta1 = y.minus(low).over(range);
    let delta2 = high.minus(y).over(range);
    let mut_pow = one.over(eta.plus(one));
    let deltaq = if u.less(half) {
        let xy = one.minus(delta1);
        let val = two.times(u).plus(one.minus(two.times(u)).times(xy.power(eta.plus(one))));
        val.power(mut_pow).minus(one)
    } else {
        let xy = one.minus(delta2);
        let val = two.times(one.minus(u)).plus(
            two.times(u.minus(half)).times(xy.power(eta.plus(one))),
        );
        one.minus(val.power(mut_pow))
    };
    let new_val = y.plus(deltaq.times(range));
    F::narrow(hold(new_val, low, high))
}

/// Whether two values of parents hardly differ.
pub fn close<F: ArgminFloat>(parents: (F, F)) -> (r: bool)
    ensures
        r == are_close(parents),
{
    parents.0.widen().minus(parents.1.widen()).magnitude().less(F::Wide::decimal(1, 14))
}

/// What becomes of two values of parents where `v` was drawn to decide whether they cross, and `u`
/// how.
pub fn cross_at<F: ArgminFloat>(
    parents: (F, F),
    bound: (F, F),
    eta: F::Wide,
    v: F::Wide,
    u: F::Wide,
) -> (r: (F, F))
    ensures
        r == if half::<F::Wide>().spec_less(v) {
            parents
        } else {
            crossed(parents, bound, eta, u)
        },
{
    if F::Wide::decimal(5, 1).less(v) {
        parents
    } else {
        cross(parents, bound, eta, u)
    }
}

/// What becomes of a value where `t` was drawn to decide whether it is mutated, and `u` how.
pub fn mutate_at<F: ArgminFloat>(
    x: F,
    bound: (F, F),
    probability: F,
    eta: F::Wide,
    t: F::Wide,
    u: F::Wide,
) -> (r: F)
    ensures
        r == if probability.spec_widen().spec_less(t) {
            x
        } else {
            mutated(x, bound, eta, u)
        },
{
    if probability.widen().less(t) {
        x
    } else {
        mutate(x, bound, eta, u)
    }
}

/// Whether `x` lies between the bounds.
pub open spec fn within<F: Real>(x: F, bound: (F, F)) -> bool {
    float::at_most(bound.0, x) && float::at_most(x, bound.1)
}

/// What is held between the widened bounds is within the bounds once narrowed.
proof fn lemma_hold_within<F: ArgminFloat>(w: F::Wide, bound: (F, F))
    requires
        float::at_most(bound.0, bound.1),
    ensures
        within(F::spec_narrow(held(w, bound.0.spec_widen(), bound.1.spec_widen())), bound),
{
    let low = bound.0.spec_widen();
    let high = bound.1.spec_widen();
    F::conversion_laws(bound.0, bound.1, held(w, low, high));
    F::conversion_laws(bound.1, bound.0, held(w, low, high));
    float::law_clamp(w, low, high);
}

/// The children of parents within the bounds are within the bounds.
pub proof fn law_crossed_within<F: ArgminFloat>(
    parents: (F, F),
    bound: (F, F),
    eta: F::Wide,
    u: F::Wide,
)
    requires
        float::at_most(bound.0, bound.1),
        within(parents.0, bound),
        within(parents.1, bound),
    ensures
        within(crossed(parents, bound, eta, u).0, bound),
        within(crossed(parents, bound, eta, u).1, bound),
{
    let y1 = parents.0.spec_widen();
    let y2 = parents.1.spec_widen();
    let distance = if y1.spec_less(y2) {
        y2.spec_minus(y1)
    } else {
        y1.spec_minus(y2)
    };
    let reach = spread_factor(eta, u).spec_times(distance);
    let sum = y1.spec_plus(y2);
    let c1 = half::<F::Wide>().spec_times(sum.spec_minus(reach));
    let c2 = half::<F::Wide>().spec_times(sum.spec_plus(reach));
    lemma_hold_within(c1, bound);
    lemma_hold_within(c2, bound);
}

/// A mutated value is within the bounds, wherever the value was.
pub proof fn law_mutated_within<F: ArgminFloat>(x: F, bound: (F, F), eta: F::Wide, u: F::Wide)
    requires
        float::at_most(bound.0, bound.1),
    ensures
        within(mutated(x, bound, eta, u), bound),
{
    let y = x.spec_widen();
    let low = bound.0.spec_widen();
    let high = bound.1.spec_widen();
    let range = high.spec_minus(low);
    let below = y.spec_minus(low).spec_over(range);
    let above = high.spec_minus(y).spec_over(range);
    let moved = y.spec_plus(mutation_step(below, above, eta, u).spec_times(range));
    lemma_hold_within(moved, bound);
}

/// Whether means grow with their powers, as they do in exact arithmetic, and lie between zero and
/// one.
pub open spec fn has_growing_means<W: Real>() -> bool {
    forall|u: W, y: W, p: W, q: W|
        float::at_most(float::zero(), u) && u.spec_less(float::one()) && float::at_most(
            float::zero(),
            y,
        ) && float::at_most(y, float::one()) && float::at_most(float::one(), p) && float::at_most(
            p,
            q,
        ) && float::finite(q) ==> {
            let (a, b) = (#[trigger] mutation_mean(u, y, p), #[trigger] mutation_mean(u, y, q));
            &&& float::at_most(float::zero(), a)
            &&& float::at_most(a, b)
            &&& float::at_most(b, float::one())
        }
}

/// Whether the bounds are in order, and they and the range between them are finite.
pub open spec fn is_measurable<F: ArgminFloat>(bound: (F, F)) -> bool {
    let (low, high) = (bound.0.spec_widen(), bound.1.spec_widen());
    &&& bound.0.spec_less(bound.1)
    &&& float::finite(bound.0) && float::finite(bound.1)
    &&& float::finite(low) && float::finite(high) && float::finite(high.spec_minus(low))
}

/// Holding two values between bounds keeps their order.
proof fn lemma_held_order<W: Real>(a: W, b: W, low: W, high: W)
    requires
        float::at_most(a, b),
        float::at_most(low, high),
    ensures
        float::at_most(held(a, low, high), held(b, low, high)),
{
    W::order_laws(a, b, low);
    W::order_laws(low, b, high);
    W::order_laws(high, a, b);
    W::order_laws(low, high, low);
    W::order_laws(b, a, b);
    W::order_laws(high, b, high);
}

/// Holding a value that is between the bounds leaves it where it is.
proof fn lemma_held_inside<W: Real>(y: W, low: W, high: W)
    requires
        float::at_most(low, y),
        float::at_most(y, high),
    ensures
        held(y, low, high) == y,
{
    W::order_laws(y, high, y);
    W::order_laws(y, low, y);
}

/// Where means grow with their powers, a higher distribution index moves a value less far for the
/// same random number.
proof fn lemma_higher_index_moves_less<F: ArgminFloat>(
    x: F,
    bound: (F, F),
    lower: F::Wide,
    higher: F::Wide,
    u: F::Wide,
)
    requires
        has_growing_means::<F::Wide>(),
        is_measurable(bound),
        within(x, bound),
        float::at_most(float::zero(), lower),
        float::at_most(lower, higher),
        float::finite(higher.spec_plus(float::one())),
        random::is_unit(u),
    ensures
        u.spec_less(half()) ==> float::at_most(mutated(x, bound, higher, u), x),
        !u.spec_less(half()) ==> float::at_most(x, mutated(x, bound, higher, u)),
        float::at_most(
            mutated(x, bound, higher, u).spec_minus(x).spec_magnitude(),
            mutated(x, bound, lower, u).spec_minus(x).spec_magnitude(),
        ),
{
    let one = float::one::<F::Wide>();
    let y = x.spec_widen();
    let (low, high) = (bound.0.spec_widen(), bound.1.spec_widen());
    let range = high.spec_minus(low);
    let below = y.spec_minus(low).spec_over(range);
    let above = high.spec_minus(y).spec_over(range);
    F::conversion_laws(bound.0, x, y);
    F::conversion_laws(x, bound.1, y);
    F::conversion_laws(bound.0, bound.1, y);
    random::law_unit_within::<F>(u);
    F::wide_order_laws(lower, higher);
    let (p, q) = (lower.spec_plus(one), higher.spec_plus(one));
    F::Wide::order_laws(float::zero(), u, one);
    F::step_laws(low, high, y, float::zero(), float::zero());
    let share = if u.spec_less(half()) {
        one.spec_minus(below)
    } else {
        one.spec_minus(above)
    };
    let (a, b) = (mutation_mean(u, share, p), mutation_mean(u, share, q));
    F::step_laws(low, high, y, a, b);
    let moved_a = y.spec_plus(mutation_step(below, above, lower, u).spec_times(range));
    let moved_b = y.spec_plus(mutation_step(below, above, higher, u).spec_times(range));
    let (held_a, held_b) = (held(moved_a, low, high), held(moved_b, low, high));
    let (r_a, r_b) = (mutated(x, bound, lower, u), mutated(x, bound, higher, u));
    lemma_held_inside(y, low, high);
    if u.spec_less(half()) {
        lemma_held_order(moved_a, moved_b, low, high);
        lemma_held_order(moved_b, y, low, high);
        F::wide_order_laws(held_a, held_b);
        F::conversion_laws(x, x, held_b);
        assert(float::at_most(r_a, r_b) && float::at_most(r_b, x));
    } else {
        lemma_held_order(moved_b, moved_a, low, high);
        lemma_held_order(y, moved_b, low, high);
        F::wide_order_laws(held_b, held_a);
        F::conversion_laws(x, x, held_b);
        assert(float::at_most(x, r_b) && float::at_most(r_b, r_a));
    }
    law_mutated_within(x, bound, lower, u);
    law_mutated_within(x, bound, higher, u);
    lemma_within_is_finite(x, bound);
    lemma_within_is_finite(r_a, bound);
    lemma_within_is_finite(r_b, bound);
    F::closeness_laws(x, r_a, r_b);
}

/// What lies between finite bounds is finite.
pub proof fn lemma_within_is_finite<F: Real>(x: F, bound: (F, F))
    requires
        within(x, bound),
        float::finite(bound.0),
        float::finite(bound.1),
    ensures
        float::finite(x),
{
    let (least, most) = (F::spec_neg_infinity(), F::spec_infinity());
    F::order_laws(bound.0, x, least);
    F::order_laws(x, most, x);
    F::order_laws(x, bound.1, most);
    F::order_laws(bound.1, most, bound.1);
}

/// Random numbers below one half move a value down, or leave it where it is, and the others move it
/// up, or leave it where it is. This holds of number types whose means grow with their powers.
pub proof fn law_mutation_direction<F: ArgminFloat>(
    x: F,
    bound: (F, F),
    eta: F::Wide,
    u: F::Wide,
)
    requires
        has_growing_means::<F::Wide>(),
        is_measurable(bound),
        within(x, bound),
        float::at_most(float::zero(), eta),
        float::finite(eta.spec_plus(float::one())),
        random::is_unit(u),
    ensures
        within(mutated(x, bound, eta, u), bound),
        u.spec_less(half()) ==> float::at_most(mutated(x, bound, eta, u), x),
        !u.spec_less(half()) ==> float::at_most(x, mutated(x, bound, eta, u)),
{
    F::Wide::order_laws(float::zero(), eta, eta);
    F::Wide::order_laws(eta, float::zero(), eta);
    lemma_higher_index_moves_less(x, bound, eta, eta, u);
    law_mutated_within(x, bound, eta, u);
}

/// A higher distribution index gives smaller mutations: for the same words of the generator, no
/// value moves farther. This holds of number types whose means grow with their powers.
pub proof fn law_higher_index_mutates_less<F: ArgminFloat>(
    bounds: Seq<(F, F)>,
    probability: F,
    lower: F,
    higher: F,
    x: Seq<F>,
    words: Map<nat, u64>,
    i: int,
)
    requires
        has_growing_means::<F::Wide>(),
        0 <= i < x.len() <= bounds.len(),
        is_measurable(bounds[i]),
        within(x[i], bounds[i]),
        float::at_most(float::zero(), lower.spec_widen()),
        float::at_most(lower, higher),
        float::finite(higher.spec_widen().spec_plus(float::one())),
    ensures
        float::at_most(
            mutation(bounds, probability, higher, x, words)[i].spec_minus(x[i]).spec_magnitude(),
            mutation(bounds, probability, lower, x, words)[i].spec_minus(x[i]).spec_magnitude(),
        ),
{
    let d = mutation_draws(probability, words, i as nat);
    let t: F::Wide = random::unit_at(words, d);
    let u: F::Wide = random::unit_at(words, d + 1);
    random::law_unit_at::<F::Wide>(words, d + 1);
    F::conversion_laws(lower, higher, u);
    if probability.spec_widen().spec_less(t) {
        lemma_within_is_finite(x[i], bounds[i]);
        F::closeness_laws(x[i], x[i], x[i]);
    } else {
        lemma_higher_index_moves_less(
            x[i],
            bounds[i],
            lower.spec_widen(),
            higher.spec_widen(),
            u,
        );
    }
}

/// No number drawn exceeds a probability of one, so that what it is the probability of takes place.
pub proof fn law_probability_one_is_certain<F: ArgminFloat>(
    probability: F,
    words: Map<nat, u64>,
    d: nat,
)
    requires
        float::at_most(float::one(), probability.spec_widen()),
    ensures
        !probability.spec_widen().spec_less(random::unit_at(words, d)),
{
    let t: F::Wide = random::unit_at(words, d);
    random::law_unit_at::<F::Wide>(words, d);
    random::law_unit_within::<F>(t);
    F::Wide::order_laws(t, float::one(), probability.spec_widen());
    F::Wide::order_laws(probability.spec_widen(), t, probability.spec_widen());
}

/// Every value that is placed takes a word of its own.
pub proof fn law_placing_takes_one_word_each<F: ArgminFloat>(
    bounds: Seq<(F, F)>,
    words: Map<nat, u64>,
    i: nat,
)
    requires
        i < bounds.len(),
    ensures
        placing(bounds, words).len() == bounds.len(),
        placing(bounds, words)[i as int] == value_at(
            bounds[i as int],
            random::unit_at(words, i),
        ),
{
}

/// Every value that is mutated for certain takes two words of its own: one for the decision, and one
/// for the move.
pub proof fn law_certain_mutation_takes_two_words_each<F: ArgminFloat>(
    bounds: Seq<(F, F)>,
    probability: F,
    eta: F,
    x: Seq<F>,
    words: Map<nat, u64>,
    i: nat,
)
    requires
        float::at_most(float::one(), probability.spec_widen()),
        i <= x.len(),
    ensures
        mutation_draws(probability, words, i) == 2 * i,
        i < x.len() ==> mutation(bounds, probability, eta, x, words)[i as int] == mutated(
            x[i as int],
            bounds[i as int],
            eta.spec_widen(),
            random::unit_at(words, 2 * i + 1),
        ),
    decreases i,
{
    if i > 0 {
        law_certain_mutation_takes_two_words_each(
            bounds,
            probability,
            eta,
            x,
            words,
            (i - 1) as nat,
        );
        law_probability_one_is_certain(probability, words, (2 * (i - 1)) as nat);
    }
    law_probability_one_is_certain(probability, words, 2 * i);
}

/// Values that are not mutated take one word each, for the decision.
pub proof fn law_no_mutation_takes_one_word_each<F: ArgminFloat>(
    bounds: Seq<(F, F)>,
    probability: F,
    eta: F,
    x: Seq<F>,
    words: Map<nat, u64>,
    i: nat,
)
    requires
        forall|d: nat| d <= i ==> probability.spec_widen().spec_less(
            #[trigger] random::unit_at(words, d),
        ),
        i <= x.len(),
    ensures
        mutation_draws(probability, words, i) == i,
        i < x.len() ==> mutation(bounds, probability, eta, x, words)[i as int] == x[i as int],
    decreases i,
{
    if i > 0 {
        law_no_mutation_takes_one_word_each(bounds, probability, eta, x, words, (i - 1) as nat);
        assert(probability.spec_widen().spec_less(random::unit_at(words, (i - 1) as nat)));
    }
    assert(probability.spec_widen().spec_less(random::unit_at(words, i)));
}

/// Whether the values at position `k` differ and cross by the word that is theirs if all the values
/// in front of them cross, too.
pub open spec fn crosses_by<F: ArgminFloat>(
    parents: (Seq<F>, Seq<F>),
    words: Map<nat, u64>,
    k: int,
) -> bool {
    !half::<F::Wide>().spec_less(random::unit_at(words, (2 * k + 1) as nat)) && !are_close(
        (parents.0[k], parents.1[k]),
    )
}

/// Every pair of values that crosses takes two words of its own, after the first word, which decides
/// whether the parents cross at all: one for the decision, and one for the spread.
pub proof fn law_crossing_takes_two_words_each<F: ArgminFloat>(
    bounds: Seq<(F, F)>,
    probability: F,
    eta: F,
    parents: (Seq<F>, Seq<F>),
    words: Map<nat, u64>,
    i: nat,
)
    requires
        !probability.spec_widen().spec_less(random::unit_at(words, 0)),
        i <= parents.0.len() <= parents.1.len(),
        forall|k: int|
            0 <= k <= i && k < parents.0.len() ==> #[trigger] crosses_by(parents, words, k),
    ensures
        crossing_draws(parents, words, i) == 2 * i + 1,
        i < parents.0.len() ==> (
            crossing(bounds, probability, eta, parents, words).0[i as int],
            crossing(bounds, probability, eta, parents, words).1[i as int],
        ) == crossed(
            (parents.0[i as int], parents.1[i as int]),
            bounds[i as int],
            eta.spec_widen(),
            random::unit_at(words, 2 * i + 2),
        ),
    decreases i,
{
    if i > 0 {
        law_crossing_takes_two_words_each(
            bounds,
            probability,
            eta,
            parents,
            words,
            (i - 1) as nat,
        );
        assert(crosses_by(parents, words, i - 1));
    }
    if i < parents.0.len() {
        assert(crosses_by(parents, words, i as int));
    }
}

/// Whatever the words of a generator are, the children can come from the parents.
pub proof fn law_crossing_is_crossing<F: ArgminFloat>(
    bounds: Seq<(F, F)>,
    probability: F,
    eta: F,
    parents: (Seq<F>, Seq<F>),
    words: Map<nat, u64>,
)
    requires
        parents.0.len() <= parents.1.len(),
    ensures
        is_crossing(
            bounds,
            probability,
            eta,
            parents,
            crossing(bounds, probability, eta, parents, words),
        ),
{
    let t: F::Wide = random::unit_at(words, 0);
    random::law_unit_at::<F::Wide>(words, 0);
    let children = crossing(bounds, probability, eta, parents, words);
    assert forall|i: int| 0 <= i < parents.0.len() && !probability.spec_widen().spec_less(
        t,
    ) implies is_crossing_of_values(
        (parents.0[i], parents.1[i]),
        bounds[i],
        eta.spec_widen(),
        (#[trigger] children.0[i], children.1[i]),
    ) by {
        let d = crossing_draws(parents, words, i as nat);
        random::law_unit_at::<F::Wide>(words, d);
        random::law_unit_at::<F::Wide>(words, d + 1);
    }
}

/// Whatever the words of a generator are, the values can come from the others by mutation.
pub proof fn law_mutation_is_mutation<F: ArgminFloat>(
    bounds: Seq<(F, F)>,
    probability: F,
    eta: F,
    x: Seq<F>,
    words: Map<nat, u64>,
)
    ensures
        is_mutation(bounds, probability, eta, x, mutation(bounds, probability, eta, x, words)),
{
    let y = mutation(bounds, probability, eta, x, words);
    assert forall|i: int| 0 <= i < x.len() implies is_mutation_of_value(
        bounds[i],
        probability,
        eta,
        x[i],
        #[trigger] y[i],
    ) by {
        let d = mutation_draws(probability, words, i as nat);
        random::law_unit_at::<F::Wide>(words, d);
        random::law_unit_at::<F::Wide>(words, d + 1);
    }
}

/// Whatever the words of a generator are, the values are random fractions of the way between their
/// bounds.
pub proof fn law_placing_is_random<F: ArgminFloat>(bounds: Seq<(F, F)>, words: Map<nat, u64>)
    ensures
        is_random_position(bounds, placing(bounds, words)),
{
    let position = placing(bounds, words);
    assert forall|i: int| 0 <= i < position.len() implies is_random_value(
        bounds[i],
        #[trigger] position[i],
    ) by {
        random::law_unit_at::<F::Wide>(words, i as nat);
    }
}

} // verus!
