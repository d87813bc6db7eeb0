//! The points that particles move between.

use crate::float;
use crate::float::{ArgminFloat, Real};
use crate::random;
use crate::random::RangeSource;
use vstd::prelude::*;

verus! {

/// A point of the search space, which is at the same time a direction in it.
///
/// Each operation has a specification function on the abstract values of points, so that a
/// contract can say exactly which point is computed.
pub trait Position<F: ArgminFloat>: View + Sized {
    /// How many coordinates a point has.
    closed spec fn dimension(a: Self::V) -> nat {
        arbitrary()
    }

    /// The sum of two points.
    closed spec fn sum(a: Self::V, b: Self::V) -> Self::V {
        arbitrary()
    }

    /// The difference of two points.
    closed spec fn difference(a: Self::V, b: Self::V) -> Self::V {
        arbitrary()
    }

    /// A point with its coordinates multiplied by a factor.
    closed spec fn scaled(a: Self::V, factor: F) -> Self::V {
        arbitrary()
    }

    /// The smaller of the coordinates of two points, each by itself.
    closed spec fn lowest(a: Self::V, b: Self::V) -> Self::V {
        arbitrary()
    }

    /// The larger of the coordinates of two points, each by itself.
    closed spec fn highest(a: Self::V, b: Self::V) -> Self::V {
        arbitrary()
    }

    /// The origin of the space that a point is from.
    closed spec fn origin(a: Self::V) -> Self::V {
        arbitrary()
    }

    /// The length of a direction.
    closed spec fn norm(a: Self::V) -> F {
        arbitrary()
    }

    /// Whether all coordinates of a point are between those of two others.
    closed spec fn is_inside(low: Self::V, a: Self::V, high: Self::V) -> bool {
        arbitrary()
    }

    /// Whether two points in order bound a range that is not too wide to be measured.
    closed spec fn is_box(low: Self::V, high: Self::V) -> bool {
        arbitrary()
    }

    /// Whether a random point can be drawn between two points.
    closed spec fn can_draw(a: Self::V, b: Self::V) -> bool {
        arbitrary()
    }

    /// Whether `r` may be drawn between `a` and `b`.
    closed spec fn is_drawn(a: Self::V, b: Self::V, r: Self::V) -> bool {
        arbitrary()
    }

    /// The point between `a` and `b` that follows from a stream of words, and what is left of the
    /// stream after it has been drawn by a generator that draws numbers from ranges as given.
    closed spec fn drawn_by(
        between: spec_fn(Map<nat, u64>, F, F) -> (F, Map<nat, u64>),
        a: Self::V,
        b: Self::V,
        words: Map<nat, u64>,
    ) -> (Self::V, Map<nat, u64>) {
        arbitrary()
    }

    /// The operations keep the number of coordinates, and there is one origin for each number.
    proof fn dimension_laws(a: Self::V, b: Self::V, factor: F)
        requires
            Self::dimension(a) == Self::dimension(b),
        ensures
            Self::dimension(Self::sum(a, b)) == Self::dimension(a),
            Self::dimension(Self::difference(a, b)) == Self::dimension(a),
            Self::dimension(Self::scaled(a, factor)) == Self::dimension(a),
            Self::dimension(Self::lowest(a, b)) == Self::dimension(a),
            Self::dimension(Self::highest(a, b)) == Self::dimension(a),
            Self::dimension(Self::origin(a)) == Self::dimension(a),
            Self::origin(a) == Self::origin(b),
    ;

    /// Holding a point between two bounds gives a point inside them.
    proof fn clamp_laws(a: Self::V, low: Self::V, high: Self::V)
        requires
            Self::dimension(a) == Self::dimension(low),
            Self::is_inside(low, low, high),
        ensures
            Self::is_inside(low, Self::lowest(Self::highest(a, low), high), high),
    ;

    /// What is drawn has as many coordinates as the points between which it is drawn, and is
    /// inside them if they are in order.
    proof fn draw_laws(low: Self::V, high: Self::V, r: Self::V)
        requires
            Self::is_drawn(low, high, r),
        ensures
            Self::dimension(r) == Self::dimension(low),
            Self::is_inside(low, low, high) ==> Self::is_inside(low, r, high),
    ;

    /// Random points can be drawn in a box, and between the origin and the difference of two points
    /// inside a box.
    proof fn box_laws(low: Self::V, high: Self::V, a: Self::V, b: Self::V)
        requires
            Self::is_box(low, high),
        ensures
            Self::dimension(low) > 0,
            Self::dimension(low) == Self::dimension(high),
            Self::is_inside(low, low, high),
            Self::can_draw(low, high),
            Self::is_inside(low, a, high) ==> Self::dimension(a) == Self::dimension(low),
            Self::is_inside(low, a, high) && Self::is_inside(low, b, high) ==> Self::can_draw(
                Self::origin(a),
                Self::difference(a, b),
            ),
    ;

    /// A copy.
    fn duplicate(&self) -> (r: Self)
        ensures
            r@ == self@,
    ;

    /// The sum of two points.
    fn plus(&self, other: &Self) -> (r: Self)
        requires
            Self::dimension(self@) == Self::dimension(other@),
            Self::dimension(self@) > 0,
        ensures
            r@ == Self::sum(self@, other@),
    ;

    /// The difference of two points.
    fn minus(&self, other: &Self) -> (r: Self)
        requires
            Self::dimension(self@) == Self::dimension(other@),
            Self::dimension(self@) > 0,
        ensures
            r@ == Self::difference(self@, other@),
    ;

    /// The point with its coordinates multiplied by a factor.
    fn times(&self, factor: F) -> (r: Self)
        ensures
            r@ == Self::scaled(self@, factor),
    ;

    /// The smaller of the coordinates of two points, each by itself.
    fn lower(a: &Self, b: &Self) -> (r: Self)
        requires
            Self::dimension(a@) == Self::dimension(b@),
            Self::dimension(a@) > 0,
        ensures
            r@ == Self::lowest(a@, b@),
    ;

    /// The larger of the coordinates of two points, each by itself.
    fn upper(a: &Self, b: &Self) -> (r: Self)
        requires
            Self::dimension(a@) == Self::dimension(b@),
            Self::dimension(a@) > 0,
        ensures
            r@ == Self::highest(a@, b@),
    ;

    /// The origin of the space that the point is from.
    fn zero_like(&self) -> (r: Self)
        ensures
            r@ == Self::origin(self@),
    ;

    /// The length of the direction.
    fn l2_norm(&self) -> (r: F)
        ensures
            r == Self::norm(self@),
    ;

    /// A random point between two points.
    fn rand_from_range<R: RangeSource<F>>(a: &Self, b: &Self, rng: &mut R) -> (r: Self)
        requires
            Self::can_draw(a@, b@),
        ensures
            Self::is_drawn(a@, b@, r@),
            (r@, random::stream(*final(rng))) == Self::drawn_by(
                random::ranging::<F, R>(),
                a@,
                b@,
                random::stream(*old(rng)),
            ),
    ;
}

/// The smaller of two values, and the second unless the first is less.
pub open spec fn min_of<F: Real>(a: F, b: F) -> F {
    if a.spec_less(b) {
        a
    } else {
        b
    }
}

/// The larger of two values, and the second unless the first is greater.
pub open spec fn max_of<F: Real>(a: F, b: F) -> F {
    if b.spec_less(a) {
        a
    } else {
        b
    }
}

/// The sum of the squares of the first `k` coordinates.
pub open spec fn squares<F: Real>(a: Seq<F>, k: nat) -> F
    decreases k,
{
    if k == 0 {
        float::zero()
    } else {
        squares(a, (k - 1) as nat).spec_plus(a[k - 1].spec_times(a[k - 1]))
    }
}

/// Whether a random number can be drawn from the range between `a` and `b`, where `a` is less.
pub open spec fn is_range<F: Real>(a: F, b: F) -> bool {
    a.spec_less(b) && float::finite(a) && float::finite(b) && float::finite(b.spec_minus(a))
}

/// Whether a random number can be drawn between `a` and `b`.
pub open spec fn is_drawable<F: Real>(a: F, b: F) -> bool {
    a.spec_same(b) || is_range(a, b) || is_range(b, a)
}

/// Whether `r` may be drawn between `a` and `b`.
pub open spec fn is_between<F: Real>(a: F, b: F, r: F) -> bool {
    if a.spec_same(b) {
        r == a
    } else if a.spec_less(b) {
        float::at_most(a, r) && float::at_most(r, b)
    } else {
        float::at_most(b, r) && float::at_most(r, a)
    }
}

/// The number between `a` and `b` that follows from a stream of words, and what is left of the
/// stream. Numbers that are the same take no words.
pub open spec fn value_between<F: Real>(
    between: spec_fn(Map<nat, u64>, F, F) -> (F, Map<nat, u64>),
    a: F,
    b: F,
    words: Map<nat, u64>,
) -> (F, Map<nat, u64>) {
    if a.spec_same(b) {
        (a, words)
    } else if a.spec_less(b) {
        between(words, a, b)
    } else {
        between(words, b, a)
    }
}

/// The first `k` coordinates between those of `a` and `b` that follow from a stream of words, and
/// what is left of the stream.
pub open spec fn values_between<F: Real>(
    between: spec_fn(Map<nat, u64>, F, F) -> (F, Map<nat, u64>),
    a: Seq<F>,
    b: Seq<F>,
    words: Map<nat, u64>,
    k: nat,
) -> (Seq<F>, Map<nat, u64>)
    decreases k,
{
    if k == 0 {
        (Seq::empty(), words)
    } else {
        let (values, after) = values_between(between, a, b, words, (k - 1) as nat);
        let (value, rest) = value_between(between, a[k - 1], b[k - 1], after);
        (values.push(value), rest)
    }
}

impl<F: ArgminFloat> Position<F> for Vec<F> {
    open spec fn dimension(a: Seq<F>) -> nat {
        a.len()
    }

    open spec fn sum(a: Seq<F>, b: Seq<F>) -> Seq<F> {
        Seq::new(a.len(), |i: int| a[i].spec_plus(b[i]))
    }

    open spec fn difference(a: Seq<F>, b: Seq<F>) -> Seq<F> {
        Seq::new(a.len(), |i: int| a[i].spec_minus(b[i]))
    }

    open spec fn scaled(a: Seq<F>, factor: F) -> Seq<F> {
        Seq::new(a.len(), |i: int| a[i].spec_times(factor))
    }

    open spec fn lowest(a: Seq<F>, b: Seq<F>) -> Seq<F> {
        Seq::new(a.len(), |i: int| min_of(a[i], b[i]))
    }

    open spec fn highest(a: Seq<F>, b: Seq<F>) -> Seq<F> {
        Seq::new(a.len(), |i: int| max_of(a[i], b[i]))
    }

    open spec fn origin(a: Seq<F>) -> Seq<F> {
        Seq::new(a.len(), |i: int| float::zero::<F>())
    }

    open spec fn norm(a: Seq<F>) -> F {
        squares(a, a.len()).spec_root()
    }

    open spec fn is_inside(low: Seq<F>, a: Seq<F>, high: Seq<F>) -> bool {
        &&& a.len() == low.len()
        &&& a.len() == high.len()
        &&& forall|i: int|
            0 <= i < a.len() ==> float::at_most(low[i], #[trigger] a[i]) && float::at_most(
                a[i],
                high[i],
            )
    }

    open spec fn is_box(low: Seq<F>, high: Seq<F>) -> bool {
        &&& low.len() > 0
        &&& low.len() == high.len()
        &&& forall|i: int|
            0 <= i < low.len() ==> float::at_most(#[trigger] low[i], high[i]) && float::finite(low[i])
                && float::finite(high[i]) && float::finite(high[i].spec_minus(low[i]))
    }

    open spec fn can_draw(a: Seq<F>, b: Seq<F>) -> bool {
        &&& a.len() > 0
        &&& a.len() == b.len()
        &&& forall|i: int| 0 <= i < a.len() ==> is_drawable(#[trigger] a[i], b[i])
    }

    open spec fn is_drawn(a: Seq<F>, b: Seq<F>, r: Seq<F>) -> bool {
        &&& r.len() == a.len()
        &&& r.len() == b.len()
        &&& forall|i: int| 0 <= i < r.len() ==> is_between(a[i], b[i], #[trigger] r[i])
    }

    open spec fn drawn_by(
        between: spec_fn(Map<nat, u64>, F, F) -> (F, Map<nat, u64>),
        a: Seq<F>,
        b: Seq<F>,
        words: Map<nat, u64>,
    ) -> (Seq<F>, Map<nat, u64>) {
        values_between(between, a, b, words, a.len())
    }

    proof fn dimension_laws(a: Seq<F>, b: Seq<F>, factor: F) {
    }

    proof fn clamp_laws(a: Seq<F>, low: Seq<F>, high: Seq<F>) {
        let r = Self::lowest(Self::highest(a, low), high);
        assert forall|i: int| 0 <= i < r.len() implies float::at_most(low[i], #[trigger] r[i])
            && float::at_most(r[i], high[i]) by {
            F::order_laws(low[i], high[i], low[i]);
            F::order_laws(high[i], low[i], high[i]);
        }
    }

    proof fn draw_laws(low: Seq<F>, high: Seq<F>, r: Seq<F>) {
    }

    proof fn box_laws(low: Seq<F>, high: Seq<F>, a: Seq<F>, b: Seq<F>) {
        let o = Self::origin(a);
        let d = Self::difference(a, b);
        if Self::is_inside(low, a, high) && Self::is_inside(low, b, high) {
            assert forall|i: int| 0 <= i < o.len() implies is_drawable(#[trigger] o[i], d[i]) by {
                F::range_laws(low[i], high[i], a[i], b[i]);
                F::order_laws(o[i], d[i], o[i]);
            }
        }
    }

    fn duplicate(&self) -> (r: Self) {
        let mut r: Vec<F> = Vec::with_capacity(self.len());
        let mut k: usize = 0;
        while k < self.len()
            invariant
                k <= self@.len(),
                r@ == self@.take(k as int),
            decreases self@.len() - k,
        {
            r.push(self[k]);
            k = k + 1;
        }
        assert(self@.take(k as int) =~= self@);
        r
    }

    fn plus(&self, other: &Self) -> (r: Self) {
        let mut r: Vec<F> = Vec::with_capacity(self.len());
        let mut k: usize = 0;
        while k < self.len()
            invariant
                k <= self@.len(),
                self@.len() == other@.len(),
                r@ =~= Self::sum(self@, other@).take(k as int),
            decreases self@.len() - k,
        {
            r.push(self[k].plus(other[k]));
            k = k + 1;
        }
        assert(r@ =~= Self::sum(self@, other@));
        r
    }

    fn minus(&self, other: &Self) -> (r: Self) {
        let mut r: Vec<F> = Vec::with_capacity(self.len());
        let mut k: usize = 0;
        while k < self.len()
            invariant
                k <= self@.len(),
                self@.len() == other@.len(),
                r@ =~= Self::difference(self@, other@).take(k as int),
            decreases self@.len() - k,
        {
            r.push(self[k].minus(other[k]));
            k = k + 1;
        }
        assert(r@ =~= Self::difference(self@, other@));
        r
    }

    fn times(&self, factor: F) -> (r: Self) {
        let mut r: Vec<F> = Vec::with_capacity(self.len());
        let mut k: usize = 0;
        while k < self.len()
            invariant
                k <= self@.len(),
                r@ =~= Self::scaled(self@, factor).take(k as int),
            decreases self@.len() - k,
        {
            r.push(self[k].times(factor));
            k = k + 1;
        }
        assert(r@ =~= Self::scaled(self@, factor));
        r
    }

    fn lower(a: &Self, b: &Self) -> (r: Self) {
        let mut r: Vec<F> = Vec::with_capacity(a.len());
        let mut k: usize = 0;
        while k < a.len()
            invariant
                k <= a@.len(),
                a@.len() == b@.len(),
                r@ =~= Self::lowest(a@, b@).take(k as int),
            decreases a@.len() - k,
        {
            if a[k].less(b[k]) {
                r.push(a[k]);
            } else {
                r.push(b[k]);
            }
            k = k + 1;
        }
        assert(r@ =~= Self::lowest(a@, b@));
        r
    }

    fn upper(a: &Self, b: &Self) -> (r: Self) {
        let mut r: Vec<F> = Vec::with_capacity(a.len());
        let mut k: usize = 0;
        while k < a.len()
            invariant
                k <= a@.len(),
                a@.len() == b@.len(),
                r@ =~= Self::highest(a@, b@).take(k as int),
            decreases a@.len() - k,
        {
            if b[k].less(a[k]) {
                r.push(a[k]);
            } else {
                r.push(b[k]);
            }
            k = k + 1;
        }
        assert(r@ =~= Self::highest(a@, b@));
        r
    }

    fn zero_like(&self) -> (r: Self) {
        let mut r: Vec<F> = Vec::with_capacity(self.len());
        let mut k: usize = 0;
        while k < self.len()
            invariant
                k <= self@.len(),
                r@ =~= Self::origin(self@).take(k as int),
            decreases self@.len() - k,
        {
            r.push(F::decimal(0, 0));
            k = k + 1;
        }
        assert(r@ =~= Self::origin(self@));
        r
    }

    fn l2_norm(&self) -> (r: F) {
        let mut total = F::decimal(0, 0);
        let mut k: usize = 0;
        while k < self.len()
            invariant
                k <= self@.len(),
                total == squares(self@, k as nat),
            decreases self@.len() - k,
        {
            total = total.plus(self[k].times(self[k]));
            k = k + 1;
        }
        total.root()
    }

    fn rand_from_range<R: RangeSource<F>>(a: &Self, b: &Self, rng: &mut R) -> (r: Self) {
        let mut r: Vec<F> = Vec::with_capacity(a.len());
        let mut k: usize = 0;
        while k < a.len()
            invariant
                k <= a@.len(),
                Self::can_draw(a@, b@),
                r@.len() == k,
                (r@, random::stream(*rng)) == values_between(
                    random::ranging::<F, R>(),
                    a@,
                    b@,
                    random::stream(*old(rng)),
                    k as nat,
                ),
                forall|i: int| 0 <= i < k ==> is_between(a@[i], b@[i], #[trigger] r@[i]),
            decreases a@.len() - k,
        {
            let (low, high) = (a[k], b[k]);
            proof {
                F::order_laws(high, low, high);
            }
            if low.same(high) {
                r.push(low);
            } else if low.less(high) {
                r.push(rng.between(low, high));
            } else {
                r.push(rng.between(high, low));
            }
            k = k + 1;
        }
        r
    }
}

} // verus!
