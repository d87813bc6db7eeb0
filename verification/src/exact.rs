//! Real numbers behind the numbers that solvers compute with.
//!
//! A number type rounds. What a formula is for shows where it does not: on the numbers whose sums,
//! differences, products and quotients the type can hold. A [`Reading`] says which real numbers
//! these are. The whole numbers up to 2^53 are such numbers for an IEEE 754 double, and so are all
//! real numbers for a type that never rounds.

use crate::float;
use crate::float::{ArgminFloat, Real};
use vstd::prelude::*;

verus! {

/// How the numbers of a type stand for real numbers.
#[verifier::reject_recursive_types(F)]
pub struct Reading<F> {
    /// The real number that a number stands for, if it stands for one.
    pub value: spec_fn(F) -> Option<real>,
    /// The real numbers that the type can hold as long as they are not too large.
    pub exact: spec_fn(real) -> bool,
    /// How large they may be.
    pub limit: Option<real>,
}

/// The distance of a real number from zero.
pub open spec fn size(r: real) -> real {
    if r < 0 as real {
        -r
    } else {
        r
    }
}

/// Ten to the power of `n`.
pub open spec fn power_of_ten(n: nat) -> real
    decreases n,
{
    if n == 0 {
        1 as real
    } else {
        10 as real * power_of_ten((n - 1) as nat)
    }
}

/// `r`, held between two bounds.
pub open spec fn clamped(r: real, low: real, high: real) -> real {
    if r < low {
        low
    } else if r > high {
        high
    } else {
        r
    }
}

/// The whole number `n` as a real number.
pub open spec fn real_of(n: int) -> real {
    n as real
}

/// Whether a real number is a whole number.
pub open spec fn is_whole(r: real) -> bool {
    exists|n: int| r == #[trigger] real_of(n)
}

/// Sums, differences and products of whole numbers are whole numbers.
pub proof fn lemma_whole_closed(m: int, n: int)
    ensures
        real_of(m) + real_of(n) == real_of(m + n),
        real_of(m) - real_of(n) == real_of(m - n),
        real_of(m) * real_of(n) == real_of(m * n),
{
    assert((m as real) * (n as real) == (m * n) as real) by (nonlinear_arith);
}

impl<F: Real> Reading<F> {
    /// Whether the number `x` stands for the real number `r`.
    pub open spec fn reads(self, x: F, r: real) -> bool {
        (self.value)(x) == Some(r)
    }

    /// Whether the type can hold the real number `r`.
    pub open spec fn holds(self, r: real) -> bool {
        (self.exact)(r) && (self.limit matches Some(most) ==> size(r) <= most)
    }

    /// Whether the exact real numbers are closed under sums, differences and products.
    #[verifier::opaque]
    pub open spec fn is_closed(self) -> bool {
        &&& (self.exact)(0 as real)
        &&& (self.exact)(1 as real)
        &&& forall|a: real, b: real|
            #![trigger (self.exact)(a), (self.exact)(b)]
            (self.exact)(a) && (self.exact)(b) ==> (self.exact)(a + b) && (self.exact)(a - b)
                && (self.exact)(a * b)
    }

    /// Whether numbers compare like the real numbers that they stand for, and exactly the finite
    /// ones stand for one.
    #[verifier::opaque]
    pub open spec fn keeps_order(self) -> bool {
        &&& forall|x: F| float::finite(x) <==> #[trigger] (self.value)(x) is Some
        &&& forall|x: F, y: F, a: real, b: real|
            #[trigger] self.reads(x, a) && #[trigger] self.reads(y, b) ==> x.spec_less(y) == (a < b)
                && x.spec_same(y) == (a == b)
    }

    /// Whether the results of arithmetic are the real results wherever the type can hold these.
    #[verifier::opaque]
    pub open spec fn keeps_results(self) -> bool {
        forall|x: F, y: F, a: real, b: real|
            #[trigger] self.reads(x, a) && #[trigger] self.reads(y, b) ==> {
                &&& self.holds(a + b) ==> self.reads(x.spec_plus(y), a + b)
                &&& self.holds(a - b) ==> self.reads(x.spec_minus(y), a - b)
                &&& self.holds(a * b) ==> self.reads(x.spec_times(y), a * b)
                &&& b != 0 as real && self.holds(a / b) ==> self.reads(x.spec_over(y), a / b)
            }
    }

    /// Whether the distances from zero are exact, roots of positive numbers are positive, and
    /// numbers that are the same have the same roots.
    #[verifier::opaque]
    pub open spec fn keeps_roots(self) -> bool {
        &&& forall|x: F, a: real| #[trigger]
            self.reads(x, a) && self.holds(size(a)) ==> self.reads(x.spec_magnitude(), size(a))
        &&& forall|x: F, y: F, a: real| #[trigger]
            self.reads(x, a) && #[trigger] self.reads(y, a) && a > 0 as real ==> {
                &&& (self.value)(x.spec_root()) matches Some(r)
                &&& r > 0 as real
                &&& x.spec_root().spec_same(y.spec_root())
            }
    }

    /// Whether dividing by numbers that are the same and positive keeps the order.
    #[verifier::opaque]
    pub open spec fn keeps_quotients(self) -> bool {
        forall|x: F, y: F, p: F, q: F, a: real, b: real, c: real|
            #[trigger] self.reads(x, a) && #[trigger] self.reads(y, b) && #[trigger] self.reads(p, c)
                && #[trigger] self.reads(q, c) && a <= b && c > 0 as real ==> float::at_most(
                x.spec_over(p),
                y.spec_over(q),
            )
    }

    /// Whether the constants are exact that the type can hold.
    #[verifier::opaque]
    pub open spec fn keeps_constants(self) -> bool {
        &&& forall|n: u64| #[trigger]
            self.holds(n as real) ==> self.reads(F::spec_from_u64(n), n as real)
        &&& forall|n: u64|
            n < 0x20_0000_0000_0000 && #[trigger] self.holds(n as real) ==> self.reads(
                F::spec_decimal(n, 0),
                n as real,
            )
        &&& self.holds(1 as real / 2 as real) ==> self.reads(
            F::spec_decimal(5, 1),
            1 as real / 2 as real,
        )
    }

    /// Whether arithmetic is exact wherever the type can hold the result.
    pub open spec fn is_sound(self) -> bool {
        &&& self.is_closed()
        &&& self.keeps_order()
        &&& self.keeps_results()
        &&& self.keeps_roots()
        &&& self.keeps_quotients()
        &&& self.keeps_constants()
    }

    /// Whether the type can hold every real number, takes exact roots, and knows every decimal
    /// number.
    #[verifier::opaque]
    pub open spec fn is_complete(self) -> bool {
        &&& forall|r: real| #[trigger] (self.exact)(r)
        &&& forall|x: F, a: real| #[trigger]
            self.reads(x, a) && a >= 0 as real ==> {
                &&& (self.value)(x.spec_root()) matches Some(r)
                &&& r >= 0 as real && r * r == a
            }
        &&& forall|mantissa: u64, places: u32|
            mantissa < 0x20_0000_0000_0000 ==> self.reads(
                #[trigger] F::spec_decimal(mantissa, places),
                mantissa as real / power_of_ten(places as nat),
            )
    }

    /// Whether the type never rounds.
    pub open spec fn is_ideal(self) -> bool {
        self.is_sound() && self.limit is None && self.is_complete()
    }
}

/// Sums, differences and products of exact numbers are exact.
pub proof fn lemma_closed<F: Real>(reading: Reading<F>, a: real, b: real)
    requires
        reading.is_sound(),
    ensures
        (reading.exact)(0 as real),
        (reading.exact)(1 as real),
        (reading.exact)(a) && (reading.exact)(b) ==> (reading.exact)(a + b) && (reading.exact)(a - b)
            && (reading.exact)(a * b),
{
    reveal(Reading::is_closed);
}

/// Numbers compare like the real numbers that they stand for.
pub proof fn lemma_order<F: Real>(reading: Reading<F>, x: F, y: F, a: real, b: real)
    requires
        reading.is_sound(),
        reading.reads(x, a),
        reading.reads(y, b),
    ensures
        x.spec_less(y) == (a < b),
        x.spec_same(y) == (a == b),
        float::at_most(x, y) == (a <= b),
        float::finite(x),
{
    reveal(Reading::keeps_order);
}

/// Finite numbers stand for real numbers.
pub proof fn lemma_finite<F: Real>(reading: Reading<F>, x: F) -> (a: real)
    requires
        reading.is_sound(),
        float::finite(x),
    ensures
        reading.reads(x, a),
{
    reveal(Reading::keeps_order);
    (reading.value)(x)->0
}

/// Arithmetic is exact where the type can hold the result.
pub proof fn lemma_results<F: Real>(reading: Reading<F>, x: F, y: F, a: real, b: real)
    requires
        reading.is_sound(),
        reading.reads(x, a),
        reading.reads(y, b),
    ensures
        reading.holds(a + b) ==> reading.reads(x.spec_plus(y), a + b),
        reading.holds(a - b) ==> reading.reads(x.spec_minus(y), a - b),
        reading.holds(a * b) ==> reading.reads(x.spec_times(y), a * b),
        b != 0 as real && reading.holds(a / b) ==> reading.reads(x.spec_over(y), a / b),
{
    reveal(Reading::keeps_results);
}

/// The distance from zero is exact where the type can hold it.
pub proof fn lemma_magnitude<F: Real>(reading: Reading<F>, x: F, a: real)
    requires
        reading.is_sound(),
        reading.reads(x, a),
        reading.holds(size(a)),
    ensures
        reading.reads(x.spec_magnitude(), size(a)),
{
    reveal(Reading::keeps_roots);
}

/// The roots of positive numbers that are the same are the same and positive.
pub proof fn lemma_roots<F: Real>(reading: Reading<F>, x: F, y: F, a: real) -> (r: real)
    requires
        reading.is_sound(),
        reading.reads(x, a),
        reading.reads(y, a),
        a > 0 as real,
    ensures
        reading.reads(x.spec_root(), r),
        reading.reads(y.spec_root(), r),
        r > 0 as real,
        reading.is_ideal() ==> r * r == a,
{
    reveal(Reading::keeps_roots);
    reveal(Reading::keeps_order);
    reveal(Reading::is_complete);
    let (r, s) = ((reading.value)(x.spec_root())->0, (reading.value)(y.spec_root())->0);
    assert(reading.reads(y, a) && reading.reads(x, a));
    assert(reading.reads(x.spec_root(), r) && reading.reads(y.spec_root(), s));
    r
}

/// Dividing by numbers that are the same and positive keeps the order.
pub proof fn lemma_quotients<F: Real>(
    reading: Reading<F>,
    x: F,
    y: F,
    p: F,
    q: F,
    a: real,
    b: real,
    c: real,
)
    requires
        reading.is_sound(),
        reading.reads(x, a),
        reading.reads(y, b),
        reading.reads(p, c),
        reading.reads(q, c),
        a <= b,
        c > 0 as real,
    ensures
        float::at_most(x.spec_over(p), y.spec_over(q)),
{
    reveal(Reading::keeps_quotients);
}

/// The constants are exact that the type can hold.
pub proof fn lemma_constant<F: Real>(reading: Reading<F>, n: u64)
    requires
        reading.is_sound(),
        reading.holds(n as real),
    ensures
        reading.reads(F::spec_from_u64(n), n as real),
        n < 0x20_0000_0000_0000 ==> reading.reads(F::spec_decimal(n, 0), n as real),
{
    reveal(Reading::keeps_constants);
}

/// One half is exact if the type can hold it.
pub proof fn lemma_half<F: Real>(reading: Reading<F>)
    requires
        reading.is_sound(),
        reading.holds(1 as real / 2 as real),
    ensures
        reading.reads(F::spec_decimal(5, 1), 1 as real / 2 as real),
{
    reveal(Reading::keeps_constants);
}

/// A type that never rounds can hold every real number.
pub proof fn lemma_holds<F: Real>(reading: Reading<F>, r: real)
    requires
        reading.is_ideal(),
    ensures
        reading.holds(r),
        (reading.exact)(r),
{
    reveal(Reading::is_complete);
    assert((reading.exact)(r));
}

/// A type that never rounds takes exact roots.
pub proof fn lemma_exact_root<F: Real>(reading: Reading<F>, x: F, a: real) -> (r: real)
    requires
        reading.is_ideal(),
        reading.reads(x, a),
        a >= 0 as real,
    ensures
        reading.reads(x.spec_root(), r),
        r >= 0 as real,
        r * r == a,
{
    reveal(Reading::is_complete);
    (reading.value)(x.spec_root())->0
}

/// A type that never rounds knows every decimal number.
pub proof fn lemma_decimal<F: Real>(reading: Reading<F>, mantissa: u64, places: u32)
    requires
        reading.is_ideal(),
        mantissa < 0x20_0000_0000_0000,
    ensures
        reading.reads(
            F::spec_decimal(mantissa, places),
            mantissa as real / power_of_ten(places as nat),
        ),
{
    reveal(Reading::is_complete);
}

/// Arithmetic of a type that never rounds.
pub proof fn lemma_ideal<F: Real>(reading: Reading<F>, x: F, y: F, a: real, b: real)
    requires
        reading.is_ideal(),
        reading.reads(x, a),
        reading.reads(y, b),
    ensures
        reading.reads(x.spec_plus(y), a + b),
        reading.reads(x.spec_minus(y), a - b),
        reading.reads(x.spec_times(y), a * b),
        b != 0 as real ==> reading.reads(x.spec_over(y), a / b),
        reading.reads(x.spec_magnitude(), size(a)),
        x.spec_less(y) == (a < b),
        x.spec_same(y) == (a == b),
{
    lemma_order(reading, x, y, a, b);
    lemma_results(reading, x, y, a, b);
    lemma_holds(reading, a + b);
    lemma_holds(reading, a - b);
    lemma_holds(reading, a * b);
    lemma_holds(reading, a / b);
    lemma_holds(reading, size(a));
    lemma_magnitude(reading, x, a);
}

/// The constants of a type that never rounds.
pub proof fn lemma_ideal_constants<F: Real>(reading: Reading<F>)
    requires
        reading.is_ideal(),
    ensures
        reading.reads(F::spec_decimal(0, 0), 0 as real),
        reading.reads(F::spec_decimal(1, 0), 1 as real),
        reading.reads(F::spec_decimal(2, 0), 2 as real),
        reading.reads(F::spec_decimal(4, 0), 4 as real),
        reading.reads(F::spec_decimal(5, 1), 1 as real / 2 as real),
        forall|n: u64| reading.reads(#[trigger] F::spec_from_u64(n), n as real),
{
    lemma_holds(reading, 0 as real);
    lemma_holds(reading, 1 as real);
    lemma_holds(reading, 2 as real);
    lemma_holds(reading, 4 as real);
    lemma_holds(reading, 1 as real / 2 as real);
    lemma_constant(reading, 0);
    lemma_constant(reading, 1);
    lemma_constant(reading, 2);
    lemma_constant(reading, 4);
    lemma_half(reading);
    assert forall|n: u64| reading.reads(#[trigger] F::spec_from_u64(n), n as real) by {
        lemma_holds(reading, n as real);
        lemma_constant(reading, n);
    }
}

/// Holding a number between bounds that are in order.
pub proof fn lemma_ideal_held<F: Real>(
    reading: Reading<F>,
    x: F,
    low: F,
    high: F,
    r: real,
    l: real,
    h: real,
)
    requires
        reading.is_ideal(),
        reading.reads(x, r),
        reading.reads(low, l),
        reading.reads(high, h),
        l <= h,
    ensures
        reading.reads(float::smaller(float::larger(x, low), high), clamped(r, l, h)),
{
    lemma_order(reading, x, low, r, l);
    lemma_order(reading, x, x, r, r);
    lemma_order(reading, low, low, l, l);
    lemma_order(reading, high, x, h, r);
    lemma_order(reading, high, low, h, l);
}

/// How the numbers of a solver and the intermediate results stand for real numbers where nothing is
/// ever rounded.
#[verifier::reject_recursive_types(F)]
#[verifier::reject_recursive_types(W)]
pub struct Readings<F, W> {
    /// How the numbers of the solver do.
    pub narrow: Reading<F>,
    /// How the intermediate results do.
    pub wide: Reading<W>,
}

/// Whether neither type rounds, and the conversions between them keep the real numbers.
pub open spec fn are_exact<F: ArgminFloat>(readings: Readings<F, F::Wide>) -> bool {
    &&& readings.narrow.is_ideal()
    &&& readings.wide.is_ideal()
    &&& forall|x: F, a: real| #[trigger]
        readings.narrow.reads(x, a) ==> readings.wide.reads(x.spec_widen(), a)
    &&& forall|w: F::Wide, a: real| #[trigger]
        readings.wide.reads(w, a) ==> readings.narrow.reads(F::spec_narrow(w), a)
}

impl<F: Real> Reading<F> {
    /// The real number that a finite number stands for.
    pub open spec fn at(self, x: F) -> real {
        (self.value)(x)->0
    }
}

/// Finite numbers stand for the real numbers that they are read as.
pub proof fn lemma_at<F: Real>(reading: Reading<F>, x: F)
    requires
        reading.is_sound(),
        float::finite(x),
    ensures
        reading.reads(x, reading.at(x)),
{
    let a = lemma_finite(reading, x);
}

/// The mean of two numbers, the first of which has the weight `w`.
pub open spec fn mean(w: real, a: real, b: real) -> real {
    w * a + (1 as real - w) * b
}

/// Whether `power` raises real numbers that are not negative to positive powers: what is known of
/// such powers.
#[verifier::opaque]
pub open spec fn is_power(power: spec_fn(real, real) -> real) -> bool {
    &&& forall|a: real| a >= 0 as real ==> #[trigger] power(a, 1 as real) == a
    &&& forall|e: real| e > 0 as real ==> #[trigger] power(1 as real, e) == 1 as real
    &&& forall|a: real, e: real|
        a >= 0 as real && e > 0 as real ==> #[trigger] power(a, e) >= 0 as real
    &&& forall|a: real, e: real, f: real|
        a >= 0 as real && e > 0 as real && f > 0 as real ==> #[trigger] power(power(a, e), f)
            == power(a, e * f)
    &&& forall|a: real, b: real, e: real|
        0 as real <= a <= b && e > 0 as real ==> #[trigger] power(a, e) <= #[trigger] power(b, e)
    &&& forall|a: real, b: real, e: real|
        a >= 0 as real && b >= 0 as real && e > 0 as real ==> #[trigger] power(a * b, e) == power(
            a,
            e,
        ) * power(b, e)
    &&& forall|a: real, e: real, f: real|
        0 as real <= a <= 1 as real && (0 as real) < e <= f ==> #[trigger] power(a, f)
            <= #[trigger] power(a, e)
    &&& forall|a: real, b: real, w: real, e: real|
        a >= 0 as real && b >= 0 as real && 0 as real <= w <= 1 as real && e >= 1 as real
            ==> #[trigger] power(mean(w, a, b), e) <= mean(w, power(a, e), power(b, e))
}

/// Whether the powers of a type that never rounds are those of real numbers.
#[verifier::opaque]
pub open spec fn keeps_powers<F: Real>(
    reading: Reading<F>,
    power: spec_fn(real, real) -> real,
) -> bool {
    &&& reading.is_ideal()
    &&& is_power(power)
    &&& forall|x: F, y: F, a: real, e: real| #[trigger]
        reading.reads(x, a) && #[trigger] reading.reads(y, e) && a >= 0 as real && e > 0 as real
            ==> reading.reads(x.spec_power(y), power(a, e))
}

/// What a type whose powers are those of real numbers is.
pub proof fn lemma_keeps_powers<F: Real>(
    reading: Reading<F>,
    power: spec_fn(real, real) -> real,
)
    requires
        keeps_powers(reading, power),
    ensures
        reading.is_ideal(),
        is_power(power),
{
    reveal(keeps_powers);
}

/// The power of a number.
pub proof fn lemma_power_reads<F: Real>(
    reading: Reading<F>,
    power: spec_fn(real, real) -> real,
    x: F,
    y: F,
    a: real,
    e: real,
)
    requires
        keeps_powers(reading, power),
        reading.reads(x, a),
        reading.reads(y, e),
        a >= 0 as real,
        e > 0 as real,
    ensures
        reading.reads(x.spec_power(y), power(a, e)),
{
    reveal(keeps_powers);
}

/// Powers are not negative, keep the order, and leave one where it is.
pub proof fn lemma_power(power: spec_fn(real, real) -> real, a: real, b: real, e: real)
    requires
        is_power(power),
        0 as real <= a <= b,
        e > 0 as real,
    ensures
        0 as real <= power(a, e) <= power(b, e),
        power(1 as real, e) == 1 as real,
        power(a, 1 as real) == a,
{
    reveal(is_power);
}

/// The power of a power.
pub proof fn lemma_power_of_power(
    power: spec_fn(real, real) -> real,
    a: real,
    e: real,
    f: real,
)
    requires
        is_power(power),
        a >= 0 as real,
        e > 0 as real,
        f > 0 as real,
    ensures
        power(power(a, e), f) == power(a, e * f),
{
    reveal(is_power);
}

/// Taking the root and then the power, or the power and then the root, changes nothing.
pub proof fn lemma_root_of_power(power: spec_fn(real, real) -> real, a: real, e: real)
    requires
        is_power(power),
        a >= 0 as real,
        e > 0 as real,
    ensures
        power(power(a, 1 as real / e), e) == a,
        power(power(a, e), 1 as real / e) == a,
        power(a, 1 as real / e) >= 0 as real,
        1 as real / e > 0 as real,
{
    let f = 1 as real / e;
    assert(f > 0 as real && f * e == 1 as real && e * f == 1 as real) by (nonlinear_arith)
        requires
            e > 0 as real,
            f == 1 as real / e,
    ;
    lemma_power_of_power(power, a, f, e);
    lemma_power_of_power(power, a, e, f);
    lemma_power(power, a, a, f);
}

/// Numbers with the same positive power are the same, and the one with the lesser power is the
/// lesser.
pub proof fn lemma_power_order(power: spec_fn(real, real) -> real, a: real, b: real, e: real)
    requires
        is_power(power),
        a >= 0 as real,
        b >= 0 as real,
        e > 0 as real,
        power(a, e) <= power(b, e),
    ensures
        a <= b,
{
    lemma_root_of_power(power, a, e);
    lemma_root_of_power(power, b, e);
    lemma_power(power, a, a, e);
    lemma_power(power, power(a, e), power(b, e), 1 as real / e);
}

/// The power of a product.
pub proof fn lemma_power_of_product(
    power: spec_fn(real, real) -> real,
    a: real,
    b: real,
    e: real,
)
    requires
        is_power(power),
        a >= 0 as real,
        b >= 0 as real,
        e > 0 as real,
    ensures
        power(a * b, e) == power(a, e) * power(b, e),
{
    reveal(is_power);
}

/// A higher power of a number between zero and one is not greater.
pub proof fn lemma_higher_power(
    power: spec_fn(real, real) -> real,
    a: real,
    e: real,
    f: real,
)
    requires
        is_power(power),
        0 as real <= a <= 1 as real,
        (0 as real) < e <= f,
    ensures
        power(a, f) <= power(a, e),
{
    reveal(is_power);
}

/// The power of a mean is not greater than the mean of the powers.
pub proof fn lemma_power_is_convex(
    power: spec_fn(real, real) -> real,
    a: real,
    b: real,
    w: real,
    e: real,
)
    requires
        is_power(power),
        a >= 0 as real,
        b >= 0 as real,
        0 as real <= w <= 1 as real,
        e >= 1 as real,
    ensures
        power(mean(w, a, b), e) <= mean(w, power(a, e), power(b, e)),
{
    reveal(is_power);
}

} // verus!
