//! The numbers that solvers compute with.
//!
//! A solver never fixes the type of its costs and coordinates. It asks for a [`Real`]: a type
//! with an order, arithmetic and a few constants. Each operation has a specification function of
//! the same name behind `spec_`, so that a contract can say exactly which value is computed
//! without fixing how the type rounds.

use vstd::prelude::*;

verus! {

/// The outcome of comparing two values.
#[derive(Copy, Clone, Debug, PartialEq, Eq, Structural)]
pub enum Order {
    /// The first value comes first.
    Less,
    /// Neither value comes first.
    Equal,
    /// The second value comes first.
    Greater,
}

impl Order {
    /// The outcome with the two values exchanged.
    pub open spec fn spec_reverse(self) -> Order {
        match self {
            Order::Less => Order::Greater,
            Order::Equal => Order::Equal,
            Order::Greater => Order::Less,
        }
    }

    /// `self` unless it is `Equal`, and `next` if it is.
    pub open spec fn or(self, next: Order) -> Order {
        match self {
            Order::Equal => next,
            _ => self,
        }
    }
}

/// A number with an order and arithmetic, such as an IEEE 754 floating point number.
///
/// The results of all operations depend on the operands alone. Some values may be *undefined*
/// (not a number): these are neither less than, equal to nor greater than anything, themselves
/// included.
///
/// The specification functions need not be given: a type that is implemented outside of verified
/// code leaves them open, and is trusted to obey the laws.
pub trait Real: Copy + Sized {
    /// Whether `self` is less than `other`.
    closed spec fn spec_less(self, other: Self) -> bool {
        arbitrary()
    }

    /// Whether `self` and `other` are the same number.
    closed spec fn spec_same(self, other: Self) -> bool {
        arbitrary()
    }

    /// The sum.
    closed spec fn spec_plus(self, other: Self) -> Self {
        arbitrary()
    }

    /// The difference.
    closed spec fn spec_minus(self, other: Self) -> Self {
        arbitrary()
    }

    /// The product.
    closed spec fn spec_times(self, other: Self) -> Self {
        arbitrary()
    }

    /// The quotient.
    closed spec fn spec_over(self, other: Self) -> Self {
        arbitrary()
    }

    /// The absolute value.
    closed spec fn spec_magnitude(self) -> Self {
        arbitrary()
    }

    /// The square root.
    closed spec fn spec_root(self) -> Self {
        arbitrary()
    }

    /// `self` to the power of `exponent`.
    closed spec fn spec_power(self, exponent: Self) -> Self {
        arbitrary()
    }

    /// The greatest value.
    closed spec fn spec_infinity() -> Self {
        arbitrary()
    }

    /// The least value.
    closed spec fn spec_neg_infinity() -> Self {
        arbitrary()
    }

    /// The distance from one to the next larger number.
    closed spec fn spec_epsilon() -> Self {
        arbitrary()
    }

    /// `mantissa / 10^places`, rounded to a number of this type.
    closed spec fn spec_decimal(mantissa: u64, places: u32) -> Self {
        arbitrary()
    }

    /// The number closest to `n`.
    closed spec fn spec_from_u64(n: u64) -> Self {
        arbitrary()
    }

    /// `k / 2^53`, rounded to a number of this type.
    closed spec fn spec_unit(k: u64) -> Self {
        arbitrary()
    }

    /// The number in decimal notation.
    closed spec fn spec_text(self) -> Seq<char> {
        arbitrary()
    }

    /// What holds of the order of any three values and of the infinite values.
    proof fn order_laws(a: Self, b: Self, c: Self)
        ensures
            !a.spec_less(a),
            a.spec_less(b) ==> !a.spec_same(b) && a.spec_same(a) && b.spec_same(b),
            a.spec_less(b) && b.spec_less(c) ==> a.spec_less(c),
            a.spec_same(b) ==> b.spec_same(a) && a.spec_same(a),
            a.spec_same(b) && b.spec_same(c) ==> a.spec_same(c),
            a.spec_less(b) && b.spec_same(c) ==> a.spec_less(c),
            a.spec_same(b) && b.spec_less(c) ==> a.spec_less(c),
            a.spec_same(a) && b.spec_same(b) ==> a.spec_less(b) || a.spec_same(b) || b.spec_less(a),
            !Self::spec_infinity().spec_less(a),
            !a.spec_less(Self::spec_neg_infinity()),
            Self::spec_infinity().spec_same(Self::spec_infinity()),
            Self::spec_neg_infinity().spec_same(Self::spec_neg_infinity()),
    ;

    /// Taking a number that is not negative away from a value does not make the value larger, and
    /// gives a number only if the value is one. The mantissa stays below 2^53.
    proof fn subtraction_laws(a: Self, mantissa: u64, places: u32)
        requires
            mantissa < 0x20_0000_0000_0000,
        ensures
            ({
                let r = a.spec_minus(Self::spec_decimal(mantissa, places));
                r.spec_same(r) ==> r.spec_less(a) || r.spec_same(a)
            }),
    ;

    /// Whether `self` is less than `other`.
    fn less(self, other: Self) -> (r: bool)
        ensures
            r == self.spec_less(other),
    ;

    /// Whether `self` and `other` are the same number.
    fn same(self, other: Self) -> (r: bool)
        ensures
            r == self.spec_same(other),
    ;

    /// The sum of `self` and `other`.
    fn plus(self, other: Self) -> (r: Self)
        ensures
            r == self.spec_plus(other),
    ;

    /// `self` less `other`.
    fn minus(self, other: Self) -> (r: Self)
        ensures
            r == self.spec_minus(other),
    ;

    /// The product of `self` and `other`.
    fn times(self, other: Self) -> (r: Self)
        ensures
            r == self.spec_times(other),
    ;

    /// `self` divided by `other`.
    fn over(self, other: Self) -> (r: Self)
        ensures
            r == self.spec_over(other),
    ;

    /// The absolute value of `self`.
    fn magnitude(self) -> (r: Self)
        ensures
            r == self.spec_magnitude(),
    ;

    /// The square root of `self`.
    fn root(self) -> (r: Self)
        ensures
            r == self.spec_root(),
    ;

    /// `self` to the power of `exponent`.
    fn power(self, exponent: Self) -> (r: Self)
        ensures
            r == self.spec_power(exponent),
    ;

    /// The greatest value.
    fn infinity() -> (r: Self)
        ensures
            r == Self::spec_infinity(),
    ;

    /// The least value.
    fn neg_infinity() -> (r: Self)
        ensures
            r == Self::spec_neg_infinity(),
    ;

    /// The distance from one to the next larger number.
    fn epsilon() -> (r: Self)
        ensures
            r == Self::spec_epsilon(),
    ;

    /// `mantissa / 10^places`, rounded to a number of this type.
    fn decimal(mantissa: u64, places: u32) -> (r: Self)
        ensures
            r == Self::spec_decimal(mantissa, places),
    ;

    /// The number closest to `n`.
    fn from_u64(n: u64) -> (r: Self)
        ensures
            r == Self::spec_from_u64(n),
    ;

    /// `k / 2^53`, rounded to a number of this type.
    fn unit(k: u64) -> (r: Self)
        requires
            k < 0x20_0000_0000_0000,
        ensures
            r == Self::spec_unit(k),
    ;

    /// The number in decimal notation.
    fn text(self) -> (r: String)
        ensures
            r@ == self.spec_text(),
    ;
}

/// The number type of a solver, together with the wider type in which intermediate results are
/// held.
pub trait ArgminFloat: Real {
    /// The type of intermediate results.
    type Wide: Real;

    /// `self` in the wider type.
    closed spec fn spec_widen(self) -> Self::Wide {
        arbitrary()
    }

    /// The number of this type closest to `wide`.
    closed spec fn spec_narrow(wide: Self::Wide) -> Self {
        arbitrary()
    }

    /// `wide` as a number of this type, if it is representable.
    closed spec fn spec_cast(wide: Self::Wide) -> Option<Self> {
        arbitrary()
    }

    /// What holds of the conversions: widening keeps the order, and narrowing does not move a
    /// value past a number of this type.
    proof fn conversion_laws(a: Self, b: Self, wide: Self::Wide)
        ensures
            a.spec_less(b) == a.spec_widen().spec_less(b.spec_widen()),
            a.spec_same(b) == a.spec_widen().spec_same(b.spec_widen()),
            at_most(a.spec_widen(), wide) ==> at_most(a, Self::spec_narrow(wide)),
            at_most(wide, a.spec_widen()) ==> at_most(Self::spec_narrow(wide), a),
    ;

    /// What holds of the distance of two values from a range that is itself not too wide to be
    /// measured: it can be measured too, from either side.
    proof fn range_laws(low: Self, high: Self, a: Self, b: Self)
        requires
            finite(low),
            finite(high),
            finite(high.spec_minus(low)),
            at_most(low, a),
            at_most(a, high),
            at_most(low, b),
            at_most(b, high),
        ensures
            finite(a.spec_minus(b)),
            finite(zero::<Self>()),
            finite(a.spec_minus(b).spec_minus(zero())),
            finite(zero::<Self>().spec_minus(a.spec_minus(b))),
    ;

    /// The numbers that the words of a generator stand for lie from zero up to, but not including,
    /// one.
    proof fn unit_laws(k: u64)
        requires
            k < 0x20_0000_0000_0000,
        ensures
            at_most(zero::<Self::Wide>(), Self::Wide::spec_unit(k)),
            Self::Wide::spec_unit(k).spec_less(one::<Self::Wide>()),
    ;

    /// The distance between two values of a range that can be measured is not negative and at most
    /// the whole range.
    proof fn difference_laws(low: Self, high: Self, a: Self, b: Self)
        requires
            finite(low),
            finite(high),
            finite(high.spec_minus(low)),
            at_most(low, a),
            at_most(a, b),
            at_most(b, high),
        ensures
            at_most(zero(), b.spec_minus(a)),
            at_most(b.spec_minus(a), high.spec_minus(low)),
    ;

    /// A fraction of a number that is not negative lies between zero and the number, also where
    /// both are added to a third number.
    proof fn fraction_laws(a: Self, x: Self, z: Self)
        requires
            finite(a),
            finite(x),
            at_most(zero(), x),
            at_most(zero(), z),
            at_most(z, one()),
        ensures
            at_most(zero(), x.spec_times(z)),
            at_most(x.spec_times(z), x),
            at_most(a, a.spec_plus(x.spec_times(z))),
            at_most(a.spec_plus(x.spec_times(z)), a.spec_plus(x)),
    ;

    /// The quotient of a number that is not negative and a larger one that is not tiny lies between
    /// zero and one.
    proof fn quotient_laws(x: Self, y: Self)
        requires
            finite(x),
            finite(y),
            at_most(zero(), x),
            at_most(x, y),
            !y.spec_magnitude().spec_less(Self::spec_epsilon()),
        ensures
            at_most(zero(), x.spec_over(y)),
            at_most(x.spec_over(y), one()),
    ;

    /// Adding a number between zero and one to a number between zero and `n` gives a number between
    /// zero and `n + 1`, which is finite.
    proof fn counting_laws(n: u64, a: Self, b: Self)
        requires
            n < i64::MAX,
            at_most(zero(), a),
            at_most(a, Self::spec_from_u64(n)),
            at_most(zero(), b),
            at_most(b, one()),
        ensures
            at_most(zero(), a.spec_plus(b)),
            at_most(a.spec_plus(b), Self::spec_from_u64((n + 1) as u64)),
            finite(Self::spec_from_u64((n + 1) as u64)),
    ;

    /// The logistic map `4 * z * (1 - z)` keeps numbers between zero and one between zero and one.
    proof fn logistic_laws(z: Self)
        requires
            at_most(zero(), z),
            at_most(z, one()),
        ensures
            at_most(
                zero(),
                Self::spec_decimal(4, 0).spec_times(z).spec_times(one::<Self>().spec_minus(z)),
            ),
            at_most(
                Self::spec_decimal(4, 0).spec_times(z).spec_times(one::<Self>().spec_minus(z)),
                one(),
            ),
    ;

    /// The distance of two numbers that are not negative is finite, and added to the lesser of them
    /// it gives the greater, but for rounding: no number lies between the two.
    proof fn span_laws(low: Self, high: Self, c: Self)
        requires
            finite(low),
            finite(high),
            at_most(zero(), low),
            at_most(low, high),
        ensures
            finite(high.spec_minus(low)),
            high.spec_less(c) ==> at_most(low.spec_plus(high.spec_minus(low)), c),
    ;

    /// A fraction of an infinite range that is not zero is infinite.
    proof fn infinity_laws(low: Self, high: Self, z: Self)
        requires
            finite(low),
            high.spec_same(Self::spec_infinity()),
            zero::<Self>().spec_less(z),
            at_most(z, one()),
        ensures
            at_most(low, low.spec_plus(high.spec_minus(low).spec_times(z))),
    ;

    /// What holds of a value of a range in the wider type: its distances from the bounds are
    /// fractions of the range, and a smaller fraction moves it less far.
    proof fn step_laws(
        low: Self::Wide,
        high: Self::Wide,
        y: Self::Wide,
        a: Self::Wide,
        b: Self::Wide,
    )
        requires
            finite(low),
            finite(high),
            finite(high.spec_minus(low)),
            low.spec_less(high),
            at_most(low, y),
            at_most(y, high),
            at_most(zero(), a),
            at_most(a, b),
            at_most(b, one()),
        ensures
            ({
                let range = high.spec_minus(low);
                let above_low = one::<Self::Wide>().spec_minus(y.spec_minus(low).spec_over(range));
                let below_high = one::<Self::Wide>().spec_minus(high.spec_minus(y).spec_over(range));
                let down_a = y.spec_plus(a.spec_minus(one()).spec_times(range));
                let down_b = y.spec_plus(b.spec_minus(one()).spec_times(range));
                let up_a = y.spec_plus(one::<Self::Wide>().spec_minus(a).spec_times(range));
                let up_b = y.spec_plus(one::<Self::Wide>().spec_minus(b).spec_times(range));
                &&& at_most(zero(), above_low) && at_most(above_low, one())
                &&& at_most(zero(), below_high) && at_most(below_high, one())
                &&& at_most(down_a, down_b) && at_most(down_b, y)
                &&& at_most(y, up_b) && at_most(up_b, up_a)
            }),
    ;

    /// Adding one keeps the order of numbers that are not negative and makes them at least one, in
    /// the wider type, and narrowing keeps the order.
    proof fn wide_order_laws(a: Self::Wide, b: Self::Wide)
        requires
            at_most(a, b),
        ensures
            at_most(Self::spec_narrow(a), Self::spec_narrow(b)),
            at_most(zero(), a) ==> {
                &&& at_most(one(), a.spec_plus(one()))
                &&& at_most(a.spec_plus(one()), b.spec_plus(one()))
            },
    ;

    /// Of two numbers on the same side of a third, the one between is no farther from it.
    proof fn closeness_laws(x: Self, a: Self, b: Self)
        requires
            finite(x),
            finite(a),
            finite(b),
            at_most(a, b) && at_most(b, x) || at_most(x, b) && at_most(b, a),
        ensures
            at_most(b.spec_minus(x).spec_magnitude(), a.spec_minus(x).spec_magnitude()),
    ;

    /// Where the constants of the solvers lie that are decimal fractions.
    proof fn constant_laws()
        ensures
            at_most(zero::<Self>(), Self::spec_from_u64(0)),
            at_most(Self::spec_from_u64(0), zero()),
            finite(zero::<Self>()),
            at_most(zero::<Self>(), Self::spec_decimal(1, 10)),
            at_most(Self::spec_decimal(1, 10), one()),
            at_most(zero::<Self>(), Self::spec_decimal(7, 1)),
            at_most(Self::spec_decimal(7, 1), one()),
    ;

    /// `self` in the wider type.
    fn widen(self) -> (r: Self::Wide)
        ensures
            r == self.spec_widen(),
    ;

    /// The number of this type closest to `wide`.
    fn narrow(wide: Self::Wide) -> (r: Self)
        ensures
            r == Self::spec_narrow(wide),
    ;

    /// `wide` as a number of this type, if it is representable.
    fn cast(wide: Self::Wide) -> (r: Option<Self>)
        ensures
            r == Self::spec_cast(wide),
    ;
}

/// Whether `a` is a number at all.
pub open spec fn defined<F: Real>(a: F) -> bool {
    a.spec_same(a)
}

/// Whether `a` is less than or the same as `b`.
pub open spec fn at_most<F: Real>(a: F, b: F) -> bool {
    a.spec_less(b) || a.spec_same(b)
}

/// Whether `a` is one of the two infinite values.
pub open spec fn infinite<F: Real>(a: F) -> bool {
    a.spec_same(F::spec_infinity()) || a.spec_same(F::spec_neg_infinity())
}

/// Whether `a` is a number and not infinite.
pub open spec fn finite<F: Real>(a: F) -> bool {
    defined(a) && !infinite(a)
}

/// Zero.
pub open spec fn zero<F: Real>() -> F {
    F::spec_decimal(0, 0)
}

/// One.
pub open spec fn one<F: Real>() -> F {
    F::spec_decimal(1, 0)
}

/// Minus one.
pub open spec fn minus_one<F: Real>() -> F {
    zero::<F>().spec_minus(one())
}

/// How `a` and `b` compare. Values that cannot be compared count as equal.
pub open spec fn order_of<F: Real>(a: F, b: F) -> Order {
    if a.spec_less(b) {
        Order::Less
    } else if b.spec_less(a) {
        Order::Greater
    } else {
        Order::Equal
    }
}

/// The larger of `a` and `b`, and `b` where `a` is undefined.
pub open spec fn larger<F: Real>(a: F, b: F) -> F {
    if a.spec_less(b) || !defined(a) {
        b
    } else {
        a
    }
}

/// The smaller of `a` and `b`, and `b` where `a` is undefined.
pub open spec fn smaller<F: Real>(a: F, b: F) -> F {
    if b.spec_less(a) || !defined(a) {
        b
    } else {
        a
    }
}

/// Whether `a` is less than or the same as `b`.
pub fn is_at_most<F: Real>(a: F, b: F) -> (r: bool)
    ensures
        r == at_most(a, b),
{
    a.less(b) || a.same(b)
}

/// Whether `a` is one of the two infinite values.
pub fn is_infinite<F: Real>(a: F) -> (r: bool)
    ensures
        r == infinite(a),
{
    a.same(F::infinity()) || a.same(F::neg_infinity())
}

/// Whether `a` is a number and not infinite.
pub fn is_finite<F: Real>(a: F) -> (r: bool)
    ensures
        r == finite(a),
{
    a.same(a) && !is_infinite(a)
}

/// How `a` and `b` compare. Values that cannot be compared count as equal.
pub fn compare<F: Real>(a: F, b: F) -> (r: Order)
    ensures
        r == order_of(a, b),
{
    if a.less(b) {
        Order::Less
    } else if b.less(a) {
        Order::Greater
    } else {
        Order::Equal
    }
}

/// The larger of `a` and `b`, and `b` where `a` is undefined.
pub fn larger_of<F: Real>(a: F, b: F) -> (r: F)
    ensures
        r == larger(a, b),
{
    if a.less(b) || !a.same(a) {
        b
    } else {
        a
    }
}

/// The smaller of `a` and `b`, and `b` where `a` is undefined.
pub fn smaller_of<F: Real>(a: F, b: F) -> (r: F)
    ensures
        r == smaller(a, b),
{
    if b.less(a) || !a.same(a) {
        b
    } else {
        a
    }
}

/// Holding a value between two ordered bounds gives a value between them, whatever the value was.
pub proof fn law_clamp<F: Real>(a: F, low: F, high: F)
    requires
        at_most(low, high),
    ensures
        at_most(low, smaller(larger(a, low), high)),
        at_most(smaller(larger(a, low), high), high),
{
    F::order_laws(low, a, high);
    F::order_laws(low, high, a);
    F::order_laws(a, high, low);
    F::order_laws(high, low, a);
}

/// Exchanging the operands of a comparison reverses its outcome.
pub proof fn law_order_reverses<F: Real>(a: F, b: F)
    ensures
        order_of(b, a) == order_of(a, b).spec_reverse(),
{
    F::order_laws(a, b, a);
}

} // verus!
