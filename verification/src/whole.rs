//! Whole numbers with infinities, for objectives that count.

use crate::exact;
use crate::exact::Reading;
use crate::float;
use crate::float::{ArgminFloat, Real};
use crate::text;
use vstd::prelude::*;
use vstd::string::*;

verus! {

/// A whole number, one of the two infinities, or an undefined result.
///
/// Results that are too large in magnitude become infinite. Quotients and roots are rounded
/// towards zero.
#[derive(Copy, Clone, Debug, PartialEq, Eq, Structural)]
pub enum Whole {
    /// Less than every whole number.
    NegInfinite,
    /// A whole number.
    Finite(i64),
    /// Greater than every whole number.
    Infinite,
    /// The result of an operation without a meaningful result.
    Undefined,
}

impl Whole {
    /// The value for the whole number `n`.
    pub open spec fn of(n: int) -> Whole {
        if n > i64::MAX {
            Whole::Infinite
        } else if n < i64::MIN {
            Whole::NegInfinite
        } else {
            Whole::Finite(n as i64)
        }
    }

    /// The sign of a value, which orders the infinities around zero.
    pub open spec fn sign(self) -> int {
        match self {
            Whole::NegInfinite => -1,
            Whole::Infinite => 1,
            Whole::Undefined => 0,
            Whole::Finite(n) => if n > 0 {
                1
            } else if n < 0 {
                -1
            } else {
                0
            },
        }
    }

    /// The infinity with the given sign, which is undefined for zero.
    pub open spec fn infinity_of(sign: int) -> Whole {
        if sign > 0 {
            Whole::Infinite
        } else if sign < 0 {
            Whole::NegInfinite
        } else {
            Whole::Undefined
        }
    }

    /// `base` to the power of `n`, by repeated squaring.
    pub open spec fn pow(base: Whole, n: nat) -> Whole
        decreases n,
    {
        if n == 0 {
            Whole::Finite(1)
        } else if n % 2 == 0 {
            Whole::pow(base, n / 2).spec_times(Whole::pow(base, n / 2))
        } else {
            Whole::pow(base, (n - 1) as nat).spec_times(base)
        }
    }

    /// The value for the whole number `n`.
    fn new(n: i128) -> (r: Whole)
        ensures
            r == Whole::of(n as int),
    {
        if n > i64::MAX as i128 {
            Whole::Infinite
        } else if n < i64::MIN as i128 {
            Whole::NegInfinite
        } else {
            Whole::Finite(n as i64)
        }
    }

    /// The sign of a value, which orders the infinities around zero.
    fn signum(self) -> (r: i32)
        ensures
            r == self.sign(),
    {
        match self {
            Whole::NegInfinite => -1,
            Whole::Infinite => 1,
            Whole::Undefined => 0,
            Whole::Finite(n) => if n > 0 {
                1
            } else if n < 0 {
                -1
            } else {
                0
            },
        }
    }

    /// The infinity with the given sign, which is undefined for zero.
    fn infinite_with(sign: i32) -> (r: Whole)
        ensures
            r == Whole::infinity_of(sign as int),
    {
        if sign > 0 {
            Whole::Infinite
        } else if sign < 0 {
            Whole::NegInfinite
        } else {
            Whole::Undefined
        }
    }

    /// `base` to the power of `n`, by repeated squaring.
    fn power_of(base: Whole, n: u64) -> (r: Whole)
        ensures
            r == Whole::pow(base, n as nat),
        decreases n,
    {
        if n == 0 {
            Whole::Finite(1)
        } else if n % 2 == 0 {
            let half = Whole::power_of(base, n / 2);
            half.times(half)
        } else {
            Whole::power_of(base, n - 1).times(base)
        }
    }
}

/// The powers of ten are positive.
proof fn lemma_power_of_ten(n: nat)
    ensures
        match Whole::pow(Whole::Finite(10), n) {
            Whole::Finite(d) => d >= 1,
            Whole::Infinite => true,
            _ => false,
        },
    decreases n,
{
    if n > 0 {
        if n % 2 == 0 {
            lemma_power_of_ten(n / 2);
            if let Whole::Finite(d) = Whole::pow(Whole::Finite(10), n / 2) {
                assert(d * d >= 1) by (nonlinear_arith)
                    requires
                        d >= 1,
                ;
            }
        } else {
            lemma_power_of_ten((n - 1) as nat);
        }
    }
}

/// What the constants of the solvers are as whole numbers.
proof fn lemma_small_constants()
    ensures
        float::zero::<Whole>() == Whole::Finite(0),
        float::one::<Whole>() == Whole::Finite(1),
        Whole::spec_decimal(4, 0) == Whole::Finite(4),
        Whole::spec_decimal(1, 10) == Whole::Finite(0),
        Whole::spec_decimal(7, 1) == Whole::Finite(0),
{
    assert(Whole::pow(Whole::Finite(10), 0) == Whole::Finite(1));
    assert(Whole::pow(Whole::Finite(10), 1) == Whole::Finite(10));
    assert(Whole::pow(Whole::Finite(10), 2) == Whole::Finite(100));
    assert(Whole::pow(Whole::Finite(10), 4) == Whole::Finite(10_000));
    assert(Whole::pow(Whole::Finite(10), 5) == Whole::Finite(100_000));
    assert(Whole::pow(Whole::Finite(10), 10) == Whole::Finite(10_000_000_000));
    assert(1int / 10_000_000_000int == 0);
}

/// The distance of `n` from zero.
fn distance_from_zero(n: i64) -> (r: u64)
    ensures
        r == vstd::math::abs(n as int),
{
    if n < 0 {
        (-(n as i128)) as u64
    } else {
        n as u64
    }
}

/// The largest natural number whose square is at most `n`.
pub open spec fn square_root(n: int) -> int {
    choose|r: int| r >= 0 && #[trigger] (r * r) <= n && n < (r + 1) * (r + 1)
}

/// There is at most one natural number between whose square and the next square `n` lies.
proof fn lemma_square_root_unique(n: int, a: int, b: int)
    requires
        a >= 0,
        b >= 0,
        a * a <= n < (a + 1) * (a + 1),
        b * b <= n < (b + 1) * (b + 1),
    ensures
        a == b,
{
    if a < b {
        assert((a + 1) * (a + 1) <= b * b) by (nonlinear_arith)
            requires
                0 <= a,
                a + 1 <= b,
        ;
    }
    if b < a {
        assert((b + 1) * (b + 1) <= a * a) by (nonlinear_arith)
            requires
                0 <= b,
                b + 1 <= a,
        ;
    }
}

/// The largest natural number whose square is at most `n`.
fn isqrt(n: i64) -> (r: i64)
    requires
        n >= 0,
    ensures
        r == square_root(n as int),
        r >= 0,
{
    let mut low: i128 = 0;
    let mut high: i128 = 0x1_0000_0000;
    while high - low > 1
        invariant
            0 <= low < high <= 0x1_0000_0000,
            low * low <= n < high * high,
            n >= 0,
        decreases high - low,
    {
        let middle: i128 = low + (high - low) / 2;
        assert(0 <= middle * middle <= 0x1_0000_0000 * 0x1_0000_0000) by (nonlinear_arith)
            requires
                0 <= middle <= 0x1_0000_0000,
        ;
        if middle * middle <= n as i128 {
            low = middle;
        } else {
            high = middle;
        }
    }
    proof {
        assert(high == low + 1);
        let r = square_root(n as int);
        assert(low * low <= n && n < (low + 1) * (low + 1));
        assert(r >= 0 && r * r <= n && n < (r + 1) * (r + 1));
        lemma_square_root_unique(n as int, low as int, r);
    }
    low as i64
}

impl Real for Whole {
    open spec fn spec_less(self, other: Self) -> bool {
        match (self, other) {
            (Whole::Undefined, _) => false,
            (_, Whole::Undefined) => false,
            (Whole::NegInfinite, Whole::NegInfinite) => false,
            (Whole::NegInfinite, _) => true,
            (_, Whole::NegInfinite) => false,
            (Whole::Infinite, _) => false,
            (_, Whole::Infinite) => true,
            (Whole::Finite(a), Whole::Finite(b)) => a < b,
        }
    }

    open spec fn spec_same(self, other: Self) -> bool {
        self == other && self != Whole::Undefined
    }

    open spec fn spec_plus(self, other: Self) -> Self {
        match (self, other) {
            (Whole::Finite(a), Whole::Finite(b)) => Whole::of(a + b),
            (Whole::Undefined, _) => Whole::Undefined,
            (_, Whole::Undefined) => Whole::Undefined,
            (Whole::Infinite, Whole::NegInfinite) => Whole::Undefined,
            (Whole::NegInfinite, Whole::Infinite) => Whole::Undefined,
            (Whole::Finite(_), _) => other,
            (_, _) => self,
        }
    }

    open spec fn spec_minus(self, other: Self) -> Self {
        match (self, other) {
            (Whole::Finite(a), Whole::Finite(b)) => Whole::of(a - b),
            (Whole::Undefined, _) => Whole::Undefined,
            (_, Whole::Undefined) => Whole::Undefined,
            (Whole::Infinite, Whole::Infinite) => Whole::Undefined,
            (Whole::NegInfinite, Whole::NegInfinite) => Whole::Undefined,
            (Whole::Finite(_), _) => Whole::infinity_of(-other.sign()),
            (_, _) => self,
        }
    }

    open spec fn spec_times(self, other: Self) -> Self {
        match (self, other) {
            (Whole::Finite(a), Whole::Finite(b)) => Whole::of(a * b),
            (_, _) => Whole::infinity_of(self.sign() * other.sign()),
        }
    }

    open spec fn spec_over(self, other: Self) -> Self {
        match (self, other) {
            (Whole::Finite(a), Whole::Finite(b)) => if b == 0 {
                Whole::infinity_of(self.sign())
            } else {
                let quotient = vstd::math::abs(a as int) as int / vstd::math::abs(b as int) as int;
                Whole::of(
                    if (a < 0) == (b < 0) {
                        quotient
                    } else {
                        -quotient
                    },
                )
            },
            (Whole::Undefined, _) => Whole::Undefined,
            (_, Whole::Undefined) => Whole::Undefined,
            (Whole::Finite(_), _) => Whole::Finite(0),
            (_, Whole::Finite(b)) => if b < 0 {
                Whole::infinity_of(-self.sign())
            } else {
                self
            },
            (_, _) => Whole::Undefined,
        }
    }

    open spec fn spec_magnitude(self) -> Self {
        match self {
            Whole::Finite(a) => Whole::of(vstd::math::abs(a as int) as int),
            Whole::Undefined => Whole::Undefined,
            _ => Whole::Infinite,
        }
    }

    open spec fn spec_root(self) -> Self {
        match self {
            Whole::Finite(a) => if a < 0 {
                Whole::Undefined
            } else {
                Whole::of(square_root(a as int))
            },
            Whole::Infinite => Whole::Infinite,
            _ => Whole::Undefined,
        }
    }

    open spec fn spec_power(self, exponent: Self) -> Self {
        match exponent {
            Whole::Finite(n) => if n < 0 {
                Whole::Finite(1).spec_over(Whole::pow(self, (-n) as nat))
            } else {
                Whole::pow(self, n as nat)
            },
            _ => Whole::Undefined,
        }
    }

    open spec fn spec_infinity() -> Self {
        Whole::Infinite
    }

    open spec fn spec_neg_infinity() -> Self {
        Whole::NegInfinite
    }

    open spec fn spec_epsilon() -> Self {
        Whole::Finite(1)
    }

    open spec fn spec_decimal(mantissa: u64, places: u32) -> Self {
        Whole::of(mantissa as int).spec_over(Whole::pow(Whole::Finite(10), places as nat))
    }

    open spec fn spec_from_u64(n: u64) -> Self {
        Whole::of(n as int)
    }

    open spec fn spec_unit(k: u64) -> Self {
        Whole::of(k as int / 0x20_0000_0000_0000)
    }

    open spec fn spec_text(self) -> Seq<char> {
        match self {
            Whole::NegInfinite => "-inf"@,
            Whole::Infinite => "inf"@,
            Whole::Undefined => "NaN"@,
            Whole::Finite(n) => if n < 0 {
                "-"@ + text::decimal_text((-n) as nat)
            } else {
                text::decimal_text(n as nat)
            },
        }
    }

    proof fn order_laws(a: Self, b: Self, c: Self) {
    }

    proof fn subtraction_laws(a: Self, mantissa: u64, places: u32) {
        lemma_power_of_ten(places as nat);
        if let Whole::Finite(d) = Whole::pow(Whole::Finite(10), places as nat) {
            assert(0 <= mantissa as int / d as int <= mantissa) by (nonlinear_arith)
                requires
                    d >= 1,
                    mantissa >= 0,
            ;
        }
    }

    fn less(self, other: Self) -> (r: bool) {
        match (self, other) {
            (Whole::Undefined, _) => false,
            (_, Whole::Undefined) => false,
            (Whole::NegInfinite, Whole::NegInfinite) => false,
            (Whole::NegInfinite, _) => true,
            (_, Whole::NegInfinite) => false,
            (Whole::Infinite, _) => false,
            (_, Whole::Infinite) => true,
            (Whole::Finite(a), Whole::Finite(b)) => a < b,
        }
    }

    fn same(self, other: Self) -> (r: bool) {
        self == other && self != Whole::Undefined
    }

    fn plus(self, other: Self) -> (r: Self) {
        match (self, other) {
            (Whole::Finite(a), Whole::Finite(b)) => Whole::new(a as i128 + b as i128),
            (Whole::Undefined, _) => Whole::Undefined,
            (_, Whole::Undefined) => Whole::Undefined,
            (Whole::Infinite, Whole::NegInfinite) => Whole::Undefined,
            (Whole::NegInfinite, Whole::Infinite) => Whole::Undefined,
            (Whole::Finite(_), _) => other,
            (_, _) => self,
        }
    }

    fn minus(self, other: Self) -> (r: Self) {
        match (self, other) {
            (Whole::Finite(a), Whole::Finite(b)) => Whole::new(a as i128 - b as i128),
            (Whole::Undefined, _) => Whole::Undefined,
            (_, Whole::Undefined) => Whole::Undefined,
            (Whole::Infinite, Whole::Infinite) => Whole::Undefined,
            (Whole::NegInfinite, Whole::NegInfinite) => Whole::Undefined,
            (Whole::Finite(_), _) => Whole::infinite_with(-other.signum()),
            (_, _) => self,
        }
    }

    fn times(self, other: Self) -> (r: Self) {
        match (self, other) {
            (Whole::Finite(a), Whole::Finite(b)) => {
                assert(-0x4000_0000_0000_0000_0000_0000_0000_0000 <= a * b
                    <= 0x4000_0000_0000_0000_0000_0000_0000_0000) by (nonlinear_arith)
                    requires
                        i64::MIN <= a <= i64::MAX,
                        i64::MIN <= b <= i64::MAX,
                ;
                Whole::new(a as i128 * b as i128)
            },
            (_, _) => {
                assert(-1 <= self.sign() * other.sign() <= 1) by (nonlinear_arith)
                    requires
                        -1 <= self.sign() <= 1,
                        -1 <= other.sign() <= 1,
                ;
                Whole::infinite_with(self.signum() * other.signum())
            },
        }
    }

    fn over(self, other: Self) -> (r: Self) {
        match (self, other) {
            (Whole::Finite(a), Whole::Finite(b)) => if b == 0 {
                Whole::infinite_with(self.signum())
            } else {
                let x: u64 = distance_from_zero(a);
                let y: u64 = distance_from_zero(b);
                let quotient: i128 = (x / y) as i128;
                proof {
                    assert(x as int / y as int <= x as int) by (nonlinear_arith)
                        requires
                            x >= 0,
                            y >= 1,
                    ;
                }
                if (a < 0) == (b < 0) {
                    Whole::new(quotient)
                } else {
                    Whole::new(-quotient)
                }
            },
            (Whole::Undefined, _) => Whole::Undefined,
            (_, Whole::Undefined) => Whole::Undefined,
            (Whole::Finite(_), _) => Whole::Finite(0),
            (_, Whole::Finite(b)) => if b < 0 {
                Whole::infinite_with(-self.signum())
            } else {
                self
            },
            (_, _) => Whole::Undefined,
        }
    }

    fn magnitude(self) -> (r: Self) {
        match self {
            Whole::Finite(a) => if a < 0 {
                Whole::new(-(a as i128))
            } else {
                Whole::new(a as i128)
            },
            Whole::Undefined => Whole::Undefined,
            _ => Whole::Infinite,
        }
    }

    fn root(self) -> (r: Self) {
        match self {
            Whole::Finite(a) => if a < 0 {
                Whole::Undefined
            } else {
                Whole::new(isqrt(a) as i128)
            },
            Whole::Infinite => Whole::Infinite,
            _ => Whole::Undefined,
        }
    }

    fn power(self, exponent: Self) -> (r: Self) {
        match exponent {
            Whole::Finite(n) => if n < 0 {
                Whole::Finite(1).over(Whole::power_of(self, distance_from_zero(n)))
            } else {
                Whole::power_of(self, n as u64)
            },
            _ => Whole::Undefined,
        }
    }

    fn infinity() -> (r: Self) {
        Whole::Infinite
    }

    fn neg_infinity() -> (r: Self) {
        Whole::NegInfinite
    }

    fn epsilon() -> (r: Self) {
        Whole::Finite(1)
    }

    fn decimal(mantissa: u64, places: u32) -> (r: Self) {
        Whole::new(mantissa as i128).over(Whole::power_of(Whole::Finite(10), places as u64))
    }

    fn from_u64(n: u64) -> (r: Self) {
        Whole::new(n as i128)
    }

    fn unit(k: u64) -> (r: Self) {
        Whole::new((k / 0x20_0000_0000_0000) as i128)
    }

    fn text(self) -> (r: String) {
        match self {
            Whole::NegInfinite => "-inf".to_string(),
            Whole::Infinite => "inf".to_string(),
            Whole::Undefined => "NaN".to_string(),
            Whole::Finite(n) => if n < 0 {
                let mut r = "-".to_string();
                r.append(text::decimal(distance_from_zero(n)).as_str());
                r
            } else {
                text::decimal(n as u64)
            },
        }
    }
}

impl ArgminFloat for Whole {
    type Wide = Whole;

    open spec fn spec_widen(self) -> Whole {
        self
    }

    open spec fn spec_narrow(wide: Whole) -> Self {
        wide
    }

    open spec fn spec_cast(wide: Whole) -> Option<Self> {
        Some(wide)
    }

    proof fn conversion_laws(a: Self, b: Self, wide: Whole) {
    }

    proof fn range_laws(low: Self, high: Self, a: Self, b: Self) {
        assert(Whole::pow(Whole::Finite(10), 0) == Whole::Finite(1));
        assert(float::zero::<Whole>() == Whole::Finite(0));
    }

    proof fn unit_laws(k: u64) {
        lemma_small_constants();
    }

    proof fn difference_laws(low: Self, high: Self, a: Self, b: Self) {
        lemma_small_constants();
    }

    proof fn fraction_laws(a: Self, x: Self, z: Self) {
        lemma_small_constants();
        if let (Whole::Finite(p), Whole::Finite(n)) = (x, z) {
            assert(0 <= p * n <= p) by (nonlinear_arith)
                requires
                    p >= 0,
                    n == 0 || n == 1,
            ;
        }
    }

    proof fn quotient_laws(x: Self, y: Self) {
        lemma_small_constants();
        if let (Whole::Finite(p), Whole::Finite(q)) = (x, y) {
            assert(0 <= p as int / q as int <= 1) by (nonlinear_arith)
                requires
                    0 <= p <= q,
                    q >= 1,
            ;
        }
    }

    proof fn counting_laws(n: u64, a: Self, b: Self) {
        lemma_small_constants();
    }

    proof fn logistic_laws(z: Self) {
        lemma_small_constants();
        if let Whole::Finite(n) = z {
            assert((4 * n) * (1 - n) == 0) by (nonlinear_arith)
                requires
                    n == 0 || n == 1,
            ;
        }
    }

    proof fn span_laws(low: Self, high: Self, c: Self) {
        lemma_small_constants();
    }

    proof fn infinity_laws(low: Self, high: Self, z: Self) {
        lemma_small_constants();
    }

    proof fn step_laws(low: Whole, high: Whole, y: Whole, a: Whole, b: Whole) {
        lemma_small_constants();
        if let (Whole::Finite(p), Whole::Finite(q), Whole::Finite(n)) = (low, high, y) {
            let range = q - p;
            assert(0 <= (n - p) / range <= 1 && 0 <= (q - n) / range <= 1) by (nonlinear_arith)
                requires
                    p <= n <= q,
                    range == q - p,
                    range >= 1,
            ;
            assert(-1 * range == -range) by (nonlinear_arith);
            assert(0 * range == 0) by (nonlinear_arith);
            assert(1 * range == range) by (nonlinear_arith);
        }
    }

    proof fn wide_order_laws(a: Whole, b: Whole) {
        lemma_small_constants();
    }

    proof fn closeness_laws(x: Self, a: Self, b: Self) {
    }

    proof fn constant_laws() {
        lemma_small_constants();
    }

    fn widen(self) -> (r: Whole) {
        self
    }

    fn narrow(wide: Whole) -> (r: Self) {
        wide
    }

    fn cast(wide: Whole) -> (r: Option<Self>) {
        Some(wide)
    }
}

/// How whole numbers stand for real numbers.
pub open spec fn reading() -> Reading<Whole> {
    Reading {
        value: |w: Whole|
            match w {
                Whole::Finite(n) => Some(exact::real_of(n as int)),
                _ => None,
            },
        exact: |r: real| exact::is_whole(r),
        limit: Some(exact::real_of(i64::MAX as int)),
    }
}

/// What a value that stands for a real number is.
proof fn lemma_reads(x: Whole, a: real) -> (n: i64)
    requires
        reading().reads(x, a),
    ensures
        x == Whole::Finite(n),
        a == exact::real_of(n as int),
{
    x->Finite_0
}

proof fn lemma_whole_is_closed()
    ensures
        reading().is_closed(),
{
    reveal(Reading::is_closed);
    assert(exact::is_whole(exact::real_of(0)));
    assert(exact::is_whole(exact::real_of(1)));
    assert forall|a: real, b: real|
        #![trigger (reading().exact)(a), (reading().exact)(b)]
        (reading().exact)(a) && (reading().exact)(b) implies (reading().exact)(a + b) && (
    reading().exact)(a - b) && (reading().exact)(a * b) by {
        let m = choose|m: int| a == exact::real_of(m);
        let n = choose|n: int| b == exact::real_of(n);
        exact::lemma_whole_closed(m, n);
        assert(exact::is_whole(exact::real_of(m + n)));
        assert(exact::is_whole(exact::real_of(m - n)));
        assert(exact::is_whole(exact::real_of(m * n)));
    }
}

/// The quotient of whole numbers is exact where it is a whole number.
proof fn lemma_whole_quotient(m: i64, n: i64, q: int)
    requires
        n != 0,
        exact::real_of(m as int) / exact::real_of(n as int) == exact::real_of(q),
        -i64::MAX <= q <= i64::MAX,
    ensures
        Whole::Finite(m).spec_over(Whole::Finite(n)) == Whole::Finite(q as i64),
{
    let (a, b, c) = (exact::real_of(m as int), exact::real_of(n as int), exact::real_of(q));
    assert(a == c * b) by (nonlinear_arith)
        requires
            b != 0 as real,
            a / b == c,
    ;
    exact::lemma_whole_closed(q, n as int);
    assert(m == q * n);
    let (p, d, k) = (
        vstd::math::abs(m as int) as int,
        vstd::math::abs(n as int) as int,
        vstd::math::abs(q) as int,
    );
    assert(p == k * d && ((m < 0) != (n < 0) ==> q <= 0) && ((m < 0) == (n < 0) ==> q >= 0))
        by (nonlinear_arith)
        requires
            m == q * n,
            n != 0,
            p == if m < 0 {
                -m
            } else {
                m as int
            },
            d == if n < 0 {
                -n
            } else {
                n as int
            },
            k == if q < 0 {
                -q
            } else {
                q
            },
    ;
    assert((k * d) / d == k) by (nonlinear_arith)
        requires
            d > 0,
    ;
}

proof fn lemma_whole_keeps_results()
    ensures
        reading().keeps_results(),
{
    reveal(Reading::keeps_results);
    assert forall|x: Whole, y: Whole, a: real, b: real|
        #[trigger] reading().reads(x, a) && #[trigger] reading().reads(y, b) implies {
        &&& reading().holds(a + b) ==> reading().reads(x.spec_plus(y), a + b)
        &&& reading().holds(a - b) ==> reading().reads(x.spec_minus(y), a - b)
        &&& reading().holds(a * b) ==> reading().reads(x.spec_times(y), a * b)
        &&& b != 0 as real && reading().holds(a / b) ==> reading().reads(x.spec_over(y), a / b)
    } by {
        let m = lemma_reads(x, a);
        let n = lemma_reads(y, b);
        exact::lemma_whole_closed(m as int, n as int);
        if b != 0 as real && reading().holds(a / b) {
            let q = choose|q: int| a / b == exact::real_of(q);
            lemma_whole_quotient(m, n, q);
        }
    }
}

proof fn lemma_whole_keeps_roots()
    ensures
        reading().keeps_roots(),
{
    reveal(Reading::keeps_roots);
    assert forall|x: Whole, y: Whole, a: real| #[trigger]
        reading().reads(x, a) && #[trigger] reading().reads(y, a) && a > 0 as real implies {
        &&& (reading().value)(x.spec_root()) matches Some(r)
        &&& r > 0 as real
        &&& x.spec_root().spec_same(y.spec_root())
    } by {
        let n = lemma_reads(x, a);
        let m = lemma_reads(y, a);
        assert(m == n);
        lemma_square_root(n as int);
    }
}

/// There is a largest number whose square is at most `n`.
proof fn lemma_square_root_exists(n: int) -> (r: int)
    requires
        n >= 0,
    ensures
        r >= 0,
        r * r <= n < (r + 1) * (r + 1),
    decreases n,
{
    if n == 0 {
        0
    } else {
        let s = lemma_square_root_exists(n - 1);
        if n < (s + 1) * (s + 1) {
            s
        } else {
            assert((s + 1) * (s + 1) < (s + 2) * (s + 2)) by (nonlinear_arith)
                requires
                    s >= 0,
            ;
            s + 1
        }
    }
}

/// The root of a positive number lies between one and the number.
proof fn lemma_square_root(n: int)
    requires
        n >= 1,
    ensures
        1 <= square_root(n) <= n,
{
    let s = lemma_square_root_exists(n);
    let r = square_root(n);
    assert(s >= 0 && s * s <= n && n < (s + 1) * (s + 1));
    assert(r >= 0 && r * r <= n && n < (r + 1) * (r + 1));
    assert(1 <= r <= n) by (nonlinear_arith)
        requires
            r >= 0,
            n >= 1,
            r * r <= n < (r + 1) * (r + 1),
    ;
}

proof fn lemma_whole_keeps_quotients()
    ensures
        reading().keeps_quotients(),
{
    reveal(Reading::keeps_quotients);
    assert forall|x: Whole, y: Whole, p: Whole, q: Whole, a: real, b: real, c: real|
        #[trigger] reading().reads(x, a) && #[trigger] reading().reads(y, b) && #[trigger] reading().reads(
            p,
            c,
        ) && #[trigger] reading().reads(q, c) && a <= b && c > 0 as real implies float::at_most(
        x.spec_over(p),
        y.spec_over(q),
    ) by {
        let m = lemma_reads(x, a);
        let n = lemma_reads(y, b);
        let d = lemma_reads(p, c);
        let e = lemma_reads(q, c);
        assert(d == e && d > 0 && m <= n);
        let (s, t) = (vstd::math::abs(m as int) as int, vstd::math::abs(n as int) as int);
        assert(0 <= s / (d as int) <= s && 0 <= t / (d as int) <= t && (s <= t ==> s / (d as int)
            <= t / (d as int)) && (t <= s ==> t / (d as int) <= s / (d as int)))
            by (nonlinear_arith)
            requires
                s >= 0,
                t >= 0,
                d > 0,
        ;
    }
}

proof fn lemma_whole_keeps_constants()
    ensures
        reading().keeps_constants(),
{
    reveal(Reading::keeps_constants);
    assert(Whole::pow(Whole::Finite(10), 0) == Whole::Finite(1));
    assert forall|n: u64|
        n < 0x20_0000_0000_0000 && #[trigger] reading().holds(n as real) implies reading().reads(
        Whole::spec_decimal(n, 0),
        n as real,
    ) by {
        assert(n as int / 1 == n);
    }
    let half = 1 as real / 2 as real;
    if exact::is_whole(half) {
        let n = choose|n: int| half == exact::real_of(n);
        assert(2 as real * half == 1 as real);
        assert(2 * n == 1);
    }
}

proof fn lemma_whole_keeps_order()
    ensures
        reading().keeps_order(),
{
    reveal(Reading::keeps_order);
    assert forall|x: Whole, y: Whole, a: real, b: real|
        #[trigger] reading().reads(x, a) && #[trigger] reading().reads(y, b) implies x.spec_less(y)
        == (a < b) && x.spec_same(y) == (a == b) by {
        let m = lemma_reads(x, a);
        let n = lemma_reads(y, b);
    }
}

/// Whole numbers that are not too large are computed with exactly.
pub proof fn law_whole_numbers_are_exact()
    ensures
        reading().is_sound(),
{
    lemma_whole_is_closed();
    lemma_whole_keeps_results();
    lemma_whole_keeps_roots();
    lemma_whole_keeps_quotients();
    lemma_whole_keeps_constants();
    lemma_whole_keeps_order();
}

} // verus!
