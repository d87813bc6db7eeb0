//! What the knee of a front is, in the plane of sizes and costs.

use crate::exact;
use crate::exact::Reading;
use crate::float;
use crate::float::Real;
use crate::greedysubsetselection::cost::SubsetView;
use crate::greedysubsetselection::pareto;
use crate::greedysubsetselection::pareto::ParetoSelection;
use vstd::prelude::*;

verus! {

/// Twice the area of the triangle of three points, which is negative if they lie clockwise. It is
/// zero for points of one line.
pub open spec fn doubled_area(x: real, y: real, x1: real, y1: real, x2: real, y2: real) -> real {
    (x - x1) * (y2 - y1) - (y - y1) * (x2 - x1)
}

/// The square of the distance of two points.
pub open spec fn squared_distance(x1: real, y1: real, x2: real, y2: real) -> real {
    (y2 - y1) * (y2 - y1) + (x2 - x1) * (x2 - x1)
}

/// Whether the type can hold what is computed from coordinates of up to `most`.
pub open spec fn has_room<C: Real>(reading: Reading<C>, most: real) -> bool {
    &&& reading.is_sound()
    &&& most >= 1 as real
    &&& reading.limit matches Some(limit) ==> 8 as real * most * most <= limit
}

/// A point of the plane, with its coordinates as numbers and as the real numbers that these stand
/// for.
pub struct Point<C> {
    /// The number along the first axis.
    pub x: C,
    /// The number along the second axis.
    pub y: C,
    /// The real number along the first axis.
    pub a: real,
    /// The real number along the second axis.
    pub b: real,
}

/// Whether the numbers of a point stand for its coordinates, which are not larger than `most`.
pub open spec fn is_point<C: Real>(reading: Reading<C>, most: real, p: Point<C>) -> bool {
    &&& reading.reads(p.x, p.a) && reading.reads(p.y, p.b)
    &&& (reading.exact)(p.a) && (reading.exact)(p.b)
    &&& exact::size(p.a) <= most && exact::size(p.b) <= most
}

/// The distance of a point from the line through two others, as it is computed.
pub open spec fn distance<C: Real>(p: Point<C>, p1: Point<C>, p2: Point<C>) -> C {
    pareto::line_distance(p.x, p.y, p1.x, p1.y, p2.x, p2.y)
}

/// Twice the area of the triangle of three points.
pub open spec fn area<C: Real>(p: Point<C>, p1: Point<C>, p2: Point<C>) -> real {
    doubled_area(p.a, p.b, p1.a, p1.b, p2.a, p2.b)
}

/// Whether two points are different.
pub open spec fn are_apart<C: Real>(p: Point<C>, q: Point<C>) -> bool {
    p.a != q.a || p.b != q.b
}

/// A product of small numbers is small.
proof fn lemma_small_product(a: real, b: real, p: real, q: real)
    requires
        exact::size(a) <= p,
        exact::size(b) <= q,
    ensures
        exact::size(a * b) <= p * q,
{
    assert(-(p * q) <= a * b <= p * q) by (nonlinear_arith)
        requires
            -p <= a <= p,
            -q <= b <= q,
    ;
}

/// A product of exact numbers is computed exactly if it is not too large.
proof fn lemma_product<C: Real>(reading: Reading<C>, most: real, x: C, y: C, a: real, b: real)
    requires
        has_room(reading, most),
        reading.reads(x, a) && (reading.exact)(a) && exact::size(a) <= 2 as real * most,
        reading.reads(y, b) && (reading.exact)(b) && exact::size(b) <= 2 as real * most,
        exact::size(a) <= most || exact::size(b) <= most || a == b,
    ensures
        reading.reads(x.spec_times(y), a * b),
        (reading.exact)(a * b),
        exact::size(a) <= most && exact::size(b) <= most ==> exact::size(a * b) <= most * most,
        exact::size(a) <= most || exact::size(b) <= most ==> exact::size(a * b) <= 2 as real * (most
            * most),
        exact::size(a * b) <= 4 as real * (most * most),
{
    exact::lemma_closed(reading, a, b);
    let twice = 2 as real * most;
    lemma_small_product(a, b, twice, twice);
    if exact::size(a) <= most {
        lemma_small_product(a, b, most, twice);
    }
    if exact::size(b) <= most {
        lemma_small_product(a, b, twice, most);
    }
    if exact::size(a) <= most && exact::size(b) <= most {
        lemma_small_product(a, b, most, most);
    }
    assert(twice * twice == 4 as real * (most * most) && twice * most == 2 as real * (most * most)
        && most * twice == 2 as real * (most * most) && 8 as real * most * most == 8 as real * (most
        * most) && most * most >= 0 as real) by (nonlinear_arith)
        requires
            twice == 2 as real * most,
    ;
    exact::lemma_results(reading, x, y, a, b);
}

/// A difference of coordinates is computed exactly.
proof fn lemma_step<C: Real>(reading: Reading<C>, most: real, x: C, y: C, a: real, b: real)
    requires
        has_room(reading, most),
        reading.reads(x, a) && (reading.exact)(a) && exact::size(a) <= most,
        reading.reads(y, b) && (reading.exact)(b) && exact::size(b) <= most,
    ensures
        reading.reads(x.spec_minus(y), a - b),
        (reading.exact)(a - b),
        exact::size(a - b) <= 2 as real * most,
{
    assert(2 as real * most <= 8 as real * most * most) by (nonlinear_arith)
        requires
            most >= 1 as real,
    ;
    exact::lemma_closed(reading, a, b);
    exact::lemma_results(reading, x, y, a, b);
}

/// What is divided by the distance of the two points is twice the area of the triangle.
proof fn lemma_numerator<C: Real>(
    reading: Reading<C>,
    most: real,
    p: Point<C>,
    p1: Point<C>,
    p2: Point<C>,
) -> (n: C)
    requires
        has_room(reading, most),
        is_point(reading, most, p),
        is_point(reading, most, p1),
        is_point(reading, most, p2),
    ensures
        distance(p, p1, p2) == n.spec_over(pareto::span(p1.x, p1.y, p2.x, p2.y)),
        reading.reads(n, exact::size(area(p, p1, p2))),
{
    let (x, y, a, b) = (p.x, p.y, p.a, p.b);
    let (x1, y1, a1, b1) = (p1.x, p1.y, p1.a, p1.b);
    let (x2, y2, a2, b2) = (p2.x, p2.y, p2.a, p2.b);
    lemma_step(reading, most, y2, y1, b2, b1);
    lemma_step(reading, most, x2, x1, a2, a1);
    let (dy, dx) = (y2.spec_minus(y1), x2.spec_minus(x1));
    let (db, da) = (b2 - b1, a2 - a1);
    lemma_product(reading, most, dy, x, db, a);
    lemma_product(reading, most, dx, y, da, b);
    lemma_product(reading, most, x2, y1, a2, b1);
    lemma_product(reading, most, y2, x1, b2, a1);
    let square = most * most;
    assert(8 as real * most * most == 8 as real * square) by (nonlinear_arith)
        requires
            square == most * most,
    ;
    let (s, t) = (dy.spec_times(x), dx.spec_times(y));
    let (u, v) = (x2.spec_times(y1), y2.spec_times(x1));
    let (rs, rt, ru, rv) = (db * a, da * b, a2 * b1, b2 * a1);
    exact::lemma_closed(reading, rs, rt);
    exact::lemma_results(reading, s, t, rs, rt);
    let first = s.spec_minus(t);
    exact::lemma_closed(reading, rs - rt, ru);
    exact::lemma_results(reading, first, u, rs - rt, ru);
    let second = first.spec_plus(u);
    exact::lemma_closed(reading, rs - rt + ru, rv);
    exact::lemma_results(reading, second, v, rs - rt + ru, rv);
    let third = second.spec_minus(v);
    let area = area(p, p1, p2);
    assert(area == rs - rt + ru - rv) by (nonlinear_arith)
        requires
            area == (a - a1) * (b2 - b1) - (b - b1) * (a2 - a1),
            rs == (b2 - b1) * a,
            rt == (a2 - a1) * b,
            ru == a2 * b1,
            rv == b2 * a1,
    ;
    exact::lemma_closed(reading, 0 as real, area);
    assert(-area == 0 as real - area);
    exact::lemma_magnitude(reading, third, area);
    third.spec_magnitude()
}

/// The distance of two different points is positive, and does not change if both move alike.
proof fn lemma_span<C: Real>(
    reading: Reading<C>,
    most: real,
    p1: Point<C>,
    p2: Point<C>,
    q1: Point<C>,
    q2: Point<C>,
) -> (r: real)
    requires
        has_room(reading, most),
        is_point(reading, most, p1),
        is_point(reading, most, p2),
        is_point(reading, most, q1),
        is_point(reading, most, q2),
        p2.a - p1.a == q2.a - q1.a,
        p2.b - p1.b == q2.b - q1.b,
        are_apart(p1, p2),
    ensures
        reading.reads(pareto::span(p1.x, p1.y, p2.x, p2.y), r),
        reading.reads(pareto::span(q1.x, q1.y, q2.x, q2.y), r),
        r > 0 as real,
        reading.is_ideal() ==> r * r == squared_distance(p1.a, p1.b, p2.a, p2.b),
{
    let x = lemma_squares(reading, most, p1, p2);
    let y = lemma_squares(reading, most, q1, q2);
    let (db, da) = (p2.b - p1.b, p2.a - p1.a);
    assert(db * db + da * da > 0 as real) by (nonlinear_arith)
        requires
            db != 0 as real || da != 0 as real,
    ;
    exact::lemma_roots(reading, x, y, db * db + da * da)
}

/// What the distance of two points is the root of.
proof fn lemma_squares<C: Real>(
    reading: Reading<C>,
    most: real,
    p1: Point<C>,
    p2: Point<C>,
) -> (x: C)
    requires
        has_room(reading, most),
        is_point(reading, most, p1),
        is_point(reading, most, p2),
    ensures
        pareto::span(p1.x, p1.y, p2.x, p2.y) == x.spec_root(),
        reading.reads(x, squared_distance(p1.a, p1.b, p2.a, p2.b)),
{
    lemma_step(reading, most, p2.y, p1.y, p2.b, p1.b);
    lemma_step(reading, most, p2.x, p1.x, p2.a, p1.a);
    let (dy, dx) = (p2.y.spec_minus(p1.y), p2.x.spec_minus(p1.x));
    let (db, da) = (p2.b - p1.b, p2.a - p1.a);
    lemma_product(reading, most, dy, dy, db, db);
    lemma_product(reading, most, dx, dx, da, da);
    let square = most * most;
    assert(8 as real * most * most == 8 as real * square) by (nonlinear_arith)
        requires
            square == most * most,
    ;
    exact::lemma_closed(reading, db * db, da * da);
    exact::lemma_results(reading, dy.spec_times(dy), dx.spec_times(dx), db * db, da * da);
    dy.spec_times(dy).spec_plus(dx.spec_times(dx))
}

proof fn lemma_zero_distance<C: Real>(
    reading: Reading<C>,
    most: real,
    p: Point<C>,
    p1: Point<C>,
    p2: Point<C>,
)
    requires
        has_room(reading, most),
        is_point(reading, most, p),
        is_point(reading, most, p1),
        is_point(reading, most, p2),
        are_apart(p1, p2),
        area(p, p1, p2) == 0 as real,
    ensures
        distance(p, p1, p2).spec_same(float::zero()),
{
    let n = lemma_numerator(reading, most, p, p1, p2);
    let r = lemma_span(reading, most, p1, p2, p1, p2);
    let s = pareto::span(p1.x, p1.y, p2.x, p2.y);
    let zero = 0 as real;
    assert(zero / r == zero) by (nonlinear_arith)
        requires
            r > 0 as real,
            zero == 0 as real,
    ;
    exact::lemma_closed(reading, zero, zero);
    if let Some(limit) = reading.limit {
        assert(limit >= 0 as real) by (nonlinear_arith)
            requires
                8 as real * most * most <= limit,
                most >= 1 as real,
        ;
    }
    exact::lemma_results(reading, n, s, zero, r);
    exact::lemma_constant(reading, 0);
    exact::lemma_order(reading, n.spec_over(s), float::zero(), zero, zero);
}

/// Each of the two points that a line goes through is at distance zero from it, and so is every
/// other point of the line.
pub proof fn law_points_of_a_line_are_at_zero<C: Real>(
    reading: Reading<C>,
    most: real,
    p: Point<C>,
    p1: Point<C>,
    p2: Point<C>,
)
    requires
        has_room(reading, most),
        is_point(reading, most, p),
        is_point(reading, most, p1),
        is_point(reading, most, p2),
        are_apart(p1, p2),
    ensures
        distance(p1, p1, p2).spec_same(float::zero()),
        distance(p2, p1, p2).spec_same(float::zero()),
        area(p, p1, p2) == 0 as real ==> distance(p, p1, p2).spec_same(float::zero()),
{
    let (da, db) = (p2.a - p1.a, p2.b - p1.b);
    let zero = 0 as real;
    assert(zero * db - zero * da == zero && da * db - db * da == zero) by (nonlinear_arith)
        requires
            zero == 0 as real,
    ;
    lemma_zero_distance(reading, most, p1, p1, p2);
    lemma_zero_distance(reading, most, p2, p1, p2);
    if area(p, p1, p2) == zero {
        lemma_zero_distance(reading, most, p, p1, p2);
    }
}

/// The distance from a line is the height of the triangle over the two points that the line goes
/// through, if nothing is rounded: its square times the square of the distance of those points is
/// the square of twice the area.
pub proof fn law_line_distance_is_height<C: Real>(
    reading: Reading<C>,
    most: real,
    p: Point<C>,
    p1: Point<C>,
    p2: Point<C>,
)
    requires
        reading.is_ideal(),
        most >= 1 as real,
        is_point(reading, most, p),
        is_point(reading, most, p1),
        is_point(reading, most, p2),
        are_apart(p1, p2),
    ensures
        (reading.value)(distance(p, p1, p2)) matches Some(d) && d >= 0 as real && d * d
            * squared_distance(p1.a, p1.b, p2.a, p2.b) == area(p, p1, p2) * area(p, p1, p2),
{
    let n = lemma_numerator(reading, most, p, p1, p2);
    let r = lemma_span(reading, most, p1, p2, p1, p2);
    let s = pareto::span(p1.x, p1.y, p2.x, p2.y);
    let twice = area(p, p1, p2);
    let z = exact::size(twice);
    exact::lemma_holds(reading, z / r);
    exact::lemma_results(reading, n, s, z, r);
    let d = z / r;
    assert(d >= 0 as real && d * d * (r * r) == twice * twice) by (nonlinear_arith)
        requires
            d == z / r,
            r > 0 as real,
            z >= 0 as real,
            z == twice || z == -twice,
    ;
}

/// Of two points, the one that makes the larger triangle with the two points that a line goes
/// through is not nearer to the line.
pub proof fn law_larger_triangles_are_higher<C: Real>(
    reading: Reading<C>,
    most: real,
    p: Point<C>,
    q: Point<C>,
    p1: Point<C>,
    p2: Point<C>,
)
    requires
        has_room(reading, most),
        is_point(reading, most, p),
        is_point(reading, most, q),
        is_point(reading, most, p1),
        is_point(reading, most, p2),
        are_apart(p1, p2),
        exact::size(area(p, p1, p2)) <= exact::size(area(q, p1, p2)),
    ensures
        float::at_most(distance(p, p1, p2), distance(q, p1, p2)),
{
    let m = lemma_numerator(reading, most, p, p1, p2);
    let n = lemma_numerator(reading, most, q, p1, p2);
    let r = lemma_span(reading, most, p1, p2, p1, p2);
    let s = pareto::span(p1.x, p1.y, p2.x, p2.y);
    exact::lemma_quotients(
        reading,
        m,
        n,
        s,
        s,
        exact::size(area(p, p1, p2)),
        exact::size(area(q, p1, p2)),
        r,
    );
}

/// Whether `q` is `p` moved by `offset` along the second axis.
pub open spec fn is_moved<C: Real>(p: Point<C>, q: Point<C>, offset: real) -> bool {
    q.a == p.a && q.b == p.b + offset
}

/// Two values neither of which exceeds the other are the same.
proof fn lemma_same<C: Real>(x: C, y: C)
    requires
        float::at_most(x, y),
        float::at_most(y, x),
    ensures
        x.spec_same(y),
{
    C::order_laws(x, y, x);
    C::order_laws(y, x, y);
}

/// The distance of a point from a line does not change if all points move alike along the second
/// axis.
pub proof fn law_line_distance_ignores_offset<C: Real>(
    reading: Reading<C>,
    most: real,
    p: Point<C>,
    p1: Point<C>,
    p2: Point<C>,
    q: Point<C>,
    q1: Point<C>,
    q2: Point<C>,
    offset: real,
)
    requires
        has_room(reading, most),
        is_point(reading, most, p),
        is_point(reading, most, p1),
        is_point(reading, most, p2),
        is_point(reading, most, q),
        is_point(reading, most, q1),
        is_point(reading, most, q2),
        are_apart(p1, p2),
        is_moved(p, q, offset),
        is_moved(p1, q1, offset),
        is_moved(p2, q2, offset),
    ensures
        distance(p, p1, p2).spec_same(distance(q, q1, q2)),
        pareto::span(p1.x, p1.y, p2.x, p2.y).spec_same(pareto::span(q1.x, q1.y, q2.x, q2.y)),
{
    let m = lemma_numerator(reading, most, p, p1, p2);
    let n = lemma_numerator(reading, most, q, q1, q2);
    let r = lemma_span(reading, most, p1, p2, q1, q2);
    let s = pareto::span(p1.x, p1.y, p2.x, p2.y);
    let t = pareto::span(q1.x, q1.y, q2.x, q2.y);
    let z = exact::size(area(p, p1, p2));
    assert(q.b - q1.b == p.b - p1.b && q2.b - q1.b == p2.b - p1.b);
    assert(area(q, q1, q2) == area(p, p1, p2));
    exact::lemma_quotients(reading, m, n, s, t, z, z, r);
    exact::lemma_quotients(reading, n, m, t, s, z, z, r);
    lemma_same(m.spec_over(s), n.spec_over(t));
    exact::lemma_order(reading, s, t, r, r);
}

/// A subset as a point, by its size and its cost.
pub open spec fn point_of<C: Real>(reading: Reading<C>, s: SubsetView<C>) -> Point<C> {
    Point {
        x: pareto::size_of(s),
        y: s.cost,
        a: exact::real_of(s.indices.len() as int),
        b: (reading.value)(s.cost)->0,
    }
}

/// Whether the sizes and the costs of all subsets are exact and not larger than `most`, and the
/// first and the last subset differ in size.
pub open spec fn is_exact_front<C: Real>(
    reading: Reading<C>,
    most: real,
    solutions: Seq<SubsetView<C>>,
) -> bool {
    &&& has_room(reading, most)
    &&& solutions.len() >= 3
    &&& solutions[0].indices.len() != solutions[solutions.len() - 1].indices.len()
    &&& forall|i: int|
        0 <= i < solutions.len() ==> (#[trigger] solutions[i]).indices.len() <= u64::MAX && is_point(
            reading,
            most,
            point_of(reading, solutions[i]),
        )
}

/// How far a subset is from the line through the first and the last one: twice the area of the
/// triangle of the three.
pub open spec fn height<C: Real>(
    reading: Reading<C>,
    solutions: Seq<SubsetView<C>>,
    i: int,
) -> real {
    exact::size(
        area(
            point_of(reading, solutions[i]),
            point_of(reading, solutions[0]),
            point_of(reading, solutions[solutions.len() - 1]),
        ),
    )
}

/// Whether the first and the last subset are far enough from each other for a line through both.
pub open spec fn has_line<C: Real>(solutions: Seq<SubsetView<C>>) -> bool {
    let (first, last) = (solutions[0], solutions[solutions.len() - 1]);
    !float::at_most(
        pareto::span(pareto::size_of(first), first.cost, pareto::size_of(last), last.cost),
        C::spec_decimal(1, 12),
    )
}

proof fn lemma_farthest<C: Real>(solutions: Seq<SubsetView<C>>, upto: nat, k: int)
    requires
        1 <= k <= upto,
        forall|i: int|
            1 <= i <= upto ==> float::defined(#[trigger] pareto::bulge(solutions, i)),
    ensures
        1 <= pareto::farthest(solutions, upto) <= upto,
        float::at_most(
            pareto::bulge(solutions, k),
            pareto::bulge(solutions, pareto::farthest(solutions, upto) as int),
        ),
    decreases upto,
{
    let b = pareto::bulge(solutions, k);
    C::order_laws(b, b, b);
    if upto > 1 {
        let j = if k == upto {
            1
        } else {
            k
        };
        lemma_farthest(solutions, (upto - 1) as nat, j);
        let best = pareto::bulge(
            solutions,
            pareto::farthest(solutions, (upto - 1) as nat) as int,
        );
        C::order_laws(b, best, pareto::bulge(solutions, upto as int));
        C::order_laws(best, pareto::bulge(solutions, upto as int), best);
    }
}

/// The knee is the subset that is farthest from the line through the first and the last one: no
/// subset between them is computed to be farther, and if nothing is rounded, then none makes a
/// larger triangle with the two.
pub proof fn law_knee_is_farthest<C: Real>(
    reading: Reading<C>,
    most: real,
    solutions: Seq<SubsetView<C>>,
    k: int,
)
    requires
        is_exact_front(reading, most, solutions),
        has_line(solutions),
        1 <= k < solutions.len() - 1,
    ensures
        ({
            let knee = pareto::selected(solutions, ParetoSelection::Knee) as int;
            &&& 1 <= knee < solutions.len() - 1
            &&& float::at_most(pareto::bulge(solutions, k), pareto::bulge(solutions, knee))
            &&& reading.is_ideal() ==> height(reading, solutions, k) <= height(
                reading,
                solutions,
                knee,
            )
        }),
{
    let last = solutions.len() - 1;
    let (p1, p2) = (point_of(reading, solutions[0]), point_of(reading, solutions[last]));
    assert(are_apart(p1, p2));
    assert forall|i: int| 1 <= i < last implies float::defined(
        #[trigger] pareto::bulge(solutions, i),
    ) by {
        let p = point_of(reading, solutions[i]);
        law_larger_triangles_are_higher(reading, most, p, p, p1, p2);
        let d = distance(p, p1, p2);
        C::order_laws(d, d, d);
    }
    lemma_farthest(solutions, (solutions.len() - 2) as nat, k);
    let knee = pareto::selected(solutions, ParetoSelection::Knee) as int;
    if reading.is_ideal() {
        let (p, q) = (point_of(reading, solutions[k]), point_of(reading, solutions[knee]));
        law_line_distance_is_height(reading, most, p, p1, p2);
        law_line_distance_is_height(reading, most, q, p1, p2);
        let (d, e) = (
            (reading.value)(distance(p, p1, p2))->0,
            (reading.value)(distance(q, p1, p2))->0,
        );
        exact::lemma_order(reading, distance(p, p1, p2), distance(q, p1, p2), d, e);
        let (s, t) = (area(p, p1, p2), area(q, p1, p2));
        let w = squared_distance(p1.a, p1.b, p2.a, p2.b);
        lemma_order_of_heights(d, e, s, t, w, p2.a - p1.a, p2.b - p1.b);
    }
}

proof fn lemma_order_of_heights(
    d: real,
    e: real,
    s: real,
    t: real,
    w: real,
    da: real,
    db: real,
)
    requires
        0 as real <= d <= e,
        d * d * w == s * s,
        e * e * w == t * t,
        w == db * db + da * da,
    ensures
        exact::size(s) <= exact::size(t),
{
    let (x, y) = (exact::size(s), exact::size(t));
    assert(d * d <= e * e && w >= 0 as real && s * s == x * x && t * t == y * y) by (nonlinear_arith)
        requires
            0 as real <= d <= e,
            w == db * db + da * da,
            x == s || x == -s,
            y == t || y == -t,
    ;
    assert(d * d * w <= e * e * w) by (nonlinear_arith)
        requires
            d * d <= e * e,
            w >= 0 as real,
    ;
    assert(x <= y) by (nonlinear_arith)
        requires
            x >= 0 as real,
            y >= 0 as real,
            x * x <= y * y,
    ;
}

/// Without a subset between the first and the last one, or without a line through these, the knee is
/// the subset that is recommended for its cost.
pub proof fn law_knee_without_line_is_cheapest<C: Real>(solutions: Seq<SubsetView<C>>)
    requires
        solutions.len() < 3 || !has_line(solutions),
    ensures
        pareto::selected(solutions, ParetoSelection::Knee) == pareto::selected(
            solutions,
            ParetoSelection::MinCost,
        ),
{
}

/// Whether the subsets of two fronts have the same sizes, and the costs differ by `offset`
/// throughout.
pub open spec fn differ_by<C: Real>(
    reading: Reading<C>,
    solutions: Seq<SubsetView<C>>,
    others: Seq<SubsetView<C>>,
    offset: real,
) -> bool {
    &&& solutions.len() == others.len()
    &&& forall|i: int|
        0 <= i < solutions.len() ==> is_moved(
            point_of(reading, #[trigger] solutions[i]),
            point_of(reading, others[i]),
            offset,
        )
}

/// Values that are the same compare alike.
proof fn lemma_same_order<C: Real>(a: C, b: C, c: C, d: C)
    requires
        a.spec_same(c),
        b.spec_same(d),
    ensures
        a.spec_less(b) == c.spec_less(d),
{
    C::order_laws(a, c, a);
    C::order_laws(b, d, b);
    C::order_laws(c, a, b);
    C::order_laws(c, b, d);
    C::order_laws(a, c, d);
    C::order_laws(a, d, b);
}

proof fn lemma_farthest_ignores_offset<C: Real>(
    solutions: Seq<SubsetView<C>>,
    others: Seq<SubsetView<C>>,
    upto: nat,
)
    requires
        forall|i: int|
            1 <= i <= upto || i == 1 ==> #[trigger] pareto::bulge(solutions, i).spec_same(
                pareto::bulge(others, i),
            ),
    ensures
        pareto::farthest(solutions, upto) == pareto::farthest(others, upto),
        1 <= pareto::farthest(solutions, upto) <= upto || pareto::farthest(solutions, upto) == 1,
    decreases upto,
{
    if upto > 1 {
        lemma_farthest_ignores_offset(solutions, others, (upto - 1) as nat);
        let best = pareto::farthest(solutions, (upto - 1) as nat) as int;
        let (a, b) = (pareto::bulge(solutions, best), pareto::bulge(solutions, upto as int));
        let (c, d) = (pareto::bulge(others, best), pareto::bulge(others, upto as int));
        assert(a.spec_same(c) && b.spec_same(d));
        lemma_same_order(a, b, c, d);
        lemma_same_order(b, a, d, c);
    }
}

/// The knee does not depend on an offset of the costs.
pub proof fn law_knee_ignores_offset<C: Real>(
    reading: Reading<C>,
    most: real,
    solutions: Seq<SubsetView<C>>,
    others: Seq<SubsetView<C>>,
    offset: real,
)
    requires
        is_exact_front(reading, most, solutions),
        is_exact_front(reading, most, others),
        has_line(solutions),
        differ_by(reading, solutions, others, offset),
    ensures
        pareto::selected(solutions, ParetoSelection::Knee) == pareto::selected(
            others,
            ParetoSelection::Knee,
        ),
{
    let last = solutions.len() - 1;
    let (p1, p2) = (point_of(reading, solutions[0]), point_of(reading, solutions[last]));
    let (q1, q2) = (point_of(reading, others[0]), point_of(reading, others[last]));
    assert(are_apart(p1, p2));
    assert forall|i: int| 1 <= i < last implies #[trigger] pareto::bulge(solutions, i).spec_same(
        pareto::bulge(others, i),
    ) by {
        law_line_distance_ignores_offset(
            reading,
            most,
            point_of(reading, solutions[i]),
            p1,
            p2,
            point_of(reading, others[i]),
            q1,
            q2,
            offset,
        );
    }
    law_line_distance_ignores_offset(reading, most, p1, p1, p2, q1, q1, q2, offset);
    let (s, t) = (
        pareto::span(p1.x, p1.y, p2.x, p2.y),
        pareto::span(q1.x, q1.y, q2.x, q2.y),
    );
    let least = C::spec_decimal(1, 12);
    C::order_laws(s, t, least);
    C::order_laws(t, s, least);
    lemma_farthest_ignores_offset(solutions, others, (solutions.len() - 2) as nat);
}

} // verus!
