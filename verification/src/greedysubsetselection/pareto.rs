//! Trade-offs between the size and the cost of a subset.

use crate::error;
use crate::error::{Error, ErrorView};
use crate::float;
use crate::float::{Order, Real};
use crate::greedysubsetselection::cost;
use crate::greedysubsetselection::cost::{
    compare_subsets, Subset, SubsetSelectionCost, SubsetView,
};
use crate::greedysubsetselection::starts;
use crate::greedysubsetselection::starts::solve;
use crate::ordering;
use crate::ordering::{sort_by, Precedence};
use crate::random;
use std::ops::RangeInclusive;
use vstd::prelude::*;

verus! {

/// A non-dominated set of subsets indexed by size.
#[derive(Clone, Debug, PartialEq)]
pub struct ParetoFront<C> {
    /// Non-dominated solutions sorted by size ascending.
    pub solutions: Vec<Subset<C>>,
    /// Index into [`ParetoFront::solutions`] of the recommended solution.
    pub selected_index: usize,
}

/// The abstract value of a non-dominated set.
#[verifier::ext_equal]
pub struct ParetoFrontView<C> {
    /// Non-dominated solutions sorted by size ascending.
    pub solutions: Seq<SubsetView<C>>,
    /// The position of the recommended solution.
    pub selected_index: nat,
}

/// The abstract values of some subsets.
pub open spec fn views<C>(solutions: Seq<Subset<C>>) -> Seq<SubsetView<C>> {
    solutions.map_values(|s: Subset<C>| s@)
}

impl<C> View for ParetoFront<C> {
    type V = ParetoFrontView<C>;

    open spec fn view(&self) -> ParetoFrontView<C> {
        ParetoFrontView {
            solutions: views(self.solutions@),
            selected_index: self.selected_index as nat,
        }
    }
}

/// Strategy for selecting the recommended solution from a [`ParetoFront`].
#[derive(Copy, Clone, Debug, Eq, PartialEq, Structural)]
pub enum ParetoSelection {
    /// Pick the smallest cost, breaking ties by smaller size.
    MinCost,
    /// Pick the smallest valid size.
    MinSize,
    /// Pick the largest valid size.
    MaxSize,
    /// Pick the point farthest from the line joining the front endpoints.
    Knee,
}

/// Which of two subsets comes first by size, then by cost, then by items.
pub open spec fn by_size<C: Real>() -> spec_fn(SubsetView<C>, SubsetView<C>) -> bool {
    |a: SubsetView<C>, b: SubsetView<C>|
        cost::size_order(a.indices.len(), b.indices.len()).or(cost::subset_order(a, b))
            == Order::Less
}

/// Whether a subset that costs `cost` enters the record: the first one whose cost is a number does,
/// and every later one that costs less than the bound.
pub open spec fn enters<C: Real>(cost: C, bound: Option<C>) -> bool {
    match bound {
        None => float::defined(cost),
        Some(b) => float::order_of(cost, b) == Order::Less,
    }
}

/// The first subset whose cost is a number, if there is no bound yet, and those that cost less than
/// the bound and than all the subsets in front of them.
pub open spec fn record_costs<C: Real>(
    solutions: Seq<SubsetView<C>>,
    bound: Option<C>,
) -> Seq<SubsetView<C>>
    decreases solutions.len(),
{
    if solutions.len() == 0 {
        Seq::empty()
    } else if enters(solutions[0].cost, bound) {
        seq![solutions[0]] + record_costs(solutions.drop_first(), Some(solutions[0].cost))
    } else {
        record_costs(solutions.drop_first(), bound)
    }
}

/// The subsets that cost less than all those that are smaller, by size. The smallest one whose cost
/// is a number is among them. If no cost is a number, then the smallest subset is all there is.
pub open spec fn front_of<C: Real>(solutions: Seq<SubsetView<C>>) -> Seq<SubsetView<C>> {
    let s = ordering::sorted(by_size(), solutions);
    let records = record_costs(s, None);
    if records.len() == 0 && s.len() > 0 {
        seq![s[0]]
    } else {
        records
    }
}

/// The position of the first of the `upto` first subsets before which no other of them comes.
pub open spec fn cheapest<C: Real>(solutions: Seq<SubsetView<C>>, upto: nat) -> nat
    decreases upto,
{
    if upto <= 1 {
        0
    } else {
        let best = cheapest(solutions, (upto - 1) as nat);
        if cost::is_better(solutions[upto - 1], solutions[best as int]) {
            (upto - 1) as nat
        } else {
            best
        }
    }
}

/// The size of a subset as a number of the type of costs.
pub open spec fn size_of<C: Real>(s: SubsetView<C>) -> C {
    C::spec_from_u64(s.indices.len() as u64)
}

/// The distance of two points.
pub open spec fn span<C: Real>(x1: C, y1: C, x2: C, y2: C) -> C {
    let dy = y2.spec_minus(y1);
    let dx = x2.spec_minus(x1);
    dy.spec_times(dy).spec_plus(dx.spec_times(dx)).spec_root()
}

/// The distance of the point `(x, y)` from the line through two points.
pub open spec fn line_distance<C: Real>(x: C, y: C, x1: C, y1: C, x2: C, y2: C) -> C {
    y2.spec_minus(y1).spec_times(x).spec_minus(x2.spec_minus(x1).spec_times(y)).spec_plus(
        x2.spec_times(y1),
    ).spec_minus(y2.spec_times(x1)).spec_magnitude().spec_over(span(x1, y1, x2, y2))
}

/// The distance of a subset from the line through the first and the last subset.
pub open spec fn bulge<C: Real>(solutions: Seq<SubsetView<C>>, i: int) -> C {
    let first = solutions[0];
    let last = solutions[solutions.len() - 1];
    line_distance(
        size_of(solutions[i]),
        solutions[i].cost,
        size_of(first),
        first.cost,
        size_of(last),
        last.cost,
    )
}

/// The position of the last of the subsets from 1 to `upto` that is farthest from the line.
pub open spec fn farthest<C: Real>(solutions: Seq<SubsetView<C>>, upto: nat) -> nat
    decreases upto,
{
    if upto <= 1 {
        1
    } else {
        let best = farthest(solutions, (upto - 1) as nat);
        if float::order_of(bulge(solutions, best as int), bulge(solutions, upto as int))
            == Order::Greater {
            best
        } else {
            upto
        }
    }
}

/// The position of the recommended subset.
pub open spec fn selected<C: Real>(
    solutions: Seq<SubsetView<C>>,
    selection: ParetoSelection,
) -> nat {
    match selection {
        ParetoSelection::MinCost => cheapest(solutions, solutions.len()),
        ParetoSelection::MinSize => 0,
        ParetoSelection::MaxSize => if solutions.len() == 0 {
            0
        } else {
            (solutions.len() - 1) as nat
        },
        ParetoSelection::Knee => {
            let first = solutions[0];
            let last = solutions[solutions.len() - 1];
            if solutions.len() < 3 || float::at_most(
                span(size_of(first), first.cost, size_of(last), last.cost),
                C::spec_decimal(1, 12),
            ) {
                cheapest(solutions, solutions.len())
            } else {
                farthest(solutions, (solutions.len() - 2) as nat)
            }
        },
    }
}

/// The subsets that are selected at `count` sizes from `min` on, or the first error.
pub open spec fn solutions_by_size<P: SubsetSelectionCost>(
    problem: P,
    min: nat,
    count: nat,
    n_starts_per_size: nat,
    seed: u64,
    max_local_iterations: usize,
) -> Result<Seq<SubsetView<P::Cost>>, ErrorView>
    decreases count,
{
    if count == 0 {
        Ok(Seq::empty())
    } else {
        let k = (count - 1) as nat;
        match solutions_by_size(
            problem,
            min,
            k,
            n_starts_per_size,
            seed,
            max_local_iterations,
        ) {
            Err(e) => Err(e),
            Ok(solutions) => match starts::solution(
                problem,
                (min + k) as usize,
                n_starts_per_size,
                random::seeded_stream(seed)[k],
                max_local_iterations,
            ) {
                Err(e) => Err(e),
                Ok(s) => Ok(solutions.push(s)),
            },
        }
    }
}

/// The non-dominated set of the subsets of sizes from `min` to `max`.
pub open spec fn pareto_front<P: SubsetSelectionCost>(
    problem: P,
    min: nat,
    max: nat,
    n_starts_per_size: nat,
    seed: u64,
    max_local_iterations: usize,
    selection: ParetoSelection,
) -> Result<ParetoFrontView<P::Cost>, ErrorView> {
    if min > max {
        Err(
            ErrorView::InvalidParameter("`GreedySubsetSelection`: size range must not be empty."@),
        )
    } else {
        match solutions_by_size(
            problem,
            min,
            (max - min + 1) as nat,
            n_starts_per_size,
            seed,
            max_local_iterations,
        ) {
            Err(e) => Err(e),
            Ok(solutions) => {
                let front = front_of(solutions);
                Ok(
                    ParetoFrontView {
                        solutions: front,
                        selected_index: selected(front, selection),
                    },
                )
            },
        }
    }
}

/// Whether a subset has one of the sizes from `min` to `max` and carries the cost that the problem
/// gives it.
pub open spec fn is_member<P: SubsetSelectionCost>(
    problem: P,
    min: nat,
    max: nat,
    s: SubsetView<P::Cost>,
) -> bool {
    starts::is_solution(problem, s, s.indices.len()) && min <= s.indices.len() <= max
}

/// Whether the costs of all the subsets are numbers.
pub open spec fn have_defined_costs<C: Real>(solutions: Seq<SubsetView<C>>) -> bool {
    forall|i: int| 0 <= i < solutions.len() ==> float::defined(#[trigger] solutions[i].cost)
}

/// Whether no subset comes before an earlier one.
spec fn is_by_size<C: Real>(s: Seq<SubsetView<C>>) -> bool {
    forall|i: int, j: int|
        0 <= i < j < s.len() ==> !by_size()(#[trigger] s[j], #[trigger] s[i])
}

/// Subsets whose costs are numbers can be ordered by size.
proof fn lemma_sorted_by_size<C: Real>(s: Seq<SubsetView<C>>)
    requires
        have_defined_costs(s),
    ensures
        is_by_size(ordering::sorted(by_size(), s)),
        have_defined_costs(ordering::sorted(by_size(), s)),
{
    let before = by_size::<C>();
    assert forall|a: SubsetView<C>| s.contains(a) implies !#[trigger] before(a, a) by {
        C::order_laws(a.cost, a.cost, a.cost);
        cost::lemma_item_order_equal(a.indices, a.indices);
    }
    assert forall|a: SubsetView<C>, b: SubsetView<C>, c: SubsetView<C>|
        s.contains(a) && s.contains(b) && s.contains(c) && #[trigger] before(a, b)
            && #[trigger] before(b, c) implies before(a, c) by {
        cost::law_subset_order_reverses(b, c);
        if !cost::is_better(a, c) {
            if cost::is_better(a, b) && cost::is_better(b, c) {
                cost::law_subset_order_transitive(a, c, b);
            }
        }
    }
    assert forall|a: SubsetView<C>, b: SubsetView<C>, c: SubsetView<C>|
        s.contains(a) && s.contains(b) && s.contains(c) && #[trigger] before(a, c) && !before(a, b)
            implies #[trigger] before(b, c) by {
        if !cost::is_better(a, b) && !cost::is_better(b, c) {
            cost::law_subset_order_transitive(a, b, c);
        }
    }
    ordering::law_sorted_in_order(before, s);
    ordering::law_sorted_is_permutation(before, s);
    let t = ordering::sorted(before, s);
    assert forall|i: int| 0 <= i < t.len() implies float::defined(#[trigger] t[i].cost) by {
        assert(t.contains(t[i]));
    }
}

/// What is known of the record costs of subsets that are ordered by size.
proof fn lemma_record_costs<C: Real>(s: Seq<SubsetView<C>>, bound: Option<C>)
    requires
        is_by_size(s),
        have_defined_costs(s),
        bound matches Some(b) ==> float::defined(b),
    ensures
        forall|i: int|
            0 <= i < record_costs(s, bound).len() ==> s.contains(
                #[trigger] record_costs(s, bound)[i],
            ) && (bound matches Some(b) ==> record_costs(s, bound)[i].cost.spec_less(b)),
        forall|i: int, j: int|
            0 <= i < j < record_costs(s, bound).len() ==> {
                &&& (#[trigger] record_costs(s, bound)[i]).indices.len()
                    < (#[trigger] record_costs(s, bound)[j]).indices.len()
                &&& record_costs(s, bound)[j].cost.spec_less(record_costs(s, bound)[i].cost)
            },
    decreases s.len(),
{
    if s.len() > 0 {
        let rest = s.drop_first();
        let taken = enters(s[0].cost, bound);
        let next = if taken {
            Some(s[0].cost)
        } else {
            bound
        };
        assert(float::defined(s[0].cost));
        lemma_record_costs(rest, next);
        let tail = record_costs(rest, next);
        assert forall|i: int| 0 <= i < tail.len() implies s.contains(#[trigger] tail[i]) && (
        bound matches Some(b) ==> tail[i].cost.spec_less(b)) && (taken ==> s[0].indices.len()
            < tail[i].indices.len()) by {
            if let Some(b) = bound {
                C::order_laws(tail[i].cost, s[0].cost, b);
            }
        }
    }
}

/// Every subset, if there is no bound yet or it costs less than the bound, has a record that is
/// neither larger nor costs more.
proof fn lemma_record_covers<C: Real>(s: Seq<SubsetView<C>>, bound: Option<C>, k: int) -> (j: int)
    requires
        is_by_size(s),
        have_defined_costs(s),
        bound matches Some(b) ==> float::defined(b),
        0 <= k < s.len(),
        enters(s[k].cost, bound),
    ensures
        0 <= j < record_costs(s, bound).len(),
        record_costs(s, bound)[j].indices.len() <= s[k].indices.len(),
        float::at_most(record_costs(s, bound)[j].cost, s[k].cost),
    decreases s.len(),
{
    let rest = s.drop_first();
    let taken = enters(s[0].cost, bound);
    assert(float::defined(s[0].cost) && float::defined(s[k].cost));
    C::order_laws(s[0].cost, s[k].cost, s[0].cost);
    if k == 0 {
        0
    } else if taken {
        if s[k].cost.spec_less(s[0].cost) {
            let j = lemma_record_covers(rest, Some(s[0].cost), k - 1);
            j + 1
        } else {
            0
        }
    } else {
        lemma_record_covers(rest, bound, k - 1)
    }
}

/// The records are among the subsets, and their costs are numbers.
proof fn lemma_record_members<C: Real>(s: Seq<SubsetView<C>>, bound: Option<C>)
    ensures
        forall|i: int|
            0 <= i < record_costs(s, bound).len() ==> s.contains(
                #[trigger] record_costs(s, bound)[i],
            ) && float::defined(record_costs(s, bound)[i].cost),
    decreases s.len(),
{
    if s.len() > 0 {
        let rest = s.drop_first();
        let next = if enters(s[0].cost, bound) {
            Some(s[0].cost)
        } else {
            bound
        };
        if let Some(b) = bound {
            C::order_laws(s[0].cost, b, b);
        }
        lemma_record_members(rest, next);
        assert forall|i: int| 0 <= i < record_costs(rest, next).len() implies s.contains(
            #[trigger] record_costs(rest, next)[i],
        ) by {
            let x = record_costs(rest, next)[i];
            let j = choose|j: int| 0 <= j < rest.len() && rest[j] == x;
            assert(s[j + 1] == x);
        }
    }
}

/// There is a record wherever a cost is a number.
proof fn lemma_record_exists<C: Real>(s: Seq<SubsetView<C>>, k: int)
    requires
        0 <= k < s.len(),
        float::defined(s[k].cost),
    ensures
        record_costs(s, None).len() > 0,
    decreases s.len(),
{
    if !enters(s[0].cost, None::<C>) {
        lemma_record_exists(s.drop_first(), k - 1);
    }
}

/// The front is made of subsets that were found, and there is one wherever a subset was found.
pub proof fn law_front_is_not_empty<C: Real>(solutions: Seq<SubsetView<C>>)
    ensures
        solutions.len() > 0 ==> front_of(solutions).len() > 0,
        forall|i: int|
            0 <= i < front_of(solutions).len() ==> solutions.contains(
                #[trigger] front_of(solutions)[i],
            ),
{
    let s = ordering::sorted(by_size(), solutions);
    ordering::law_sorted_is_permutation(by_size(), solutions);
    lemma_record_members(s, None);
    assert forall|i: int| 0 <= i < front_of(solutions).len() implies solutions.contains(
        #[trigger] front_of(solutions)[i],
    ) by {
        assert(s.contains(front_of(solutions)[i]));
    }
}

/// If the cost of any subset that was found is a number, then the costs along the front are numbers.
pub proof fn law_front_has_defined_costs<C: Real>(solutions: Seq<SubsetView<C>>, k: int)
    requires
        0 <= k < solutions.len(),
        float::defined(solutions[k].cost),
    ensures
        have_defined_costs(front_of(solutions)),
{
    let s = ordering::sorted(by_size(), solutions);
    ordering::law_sorted_is_permutation(by_size(), solutions);
    lemma_record_members(s, None);
    assert(s.contains(solutions[k]));
    let m = choose|m: int| 0 <= m < s.len() && s[m] == solutions[k];
    lemma_record_exists(s, m);
}

/// Along the front the sizes grow and the costs fall, without exception.
pub proof fn law_front_trades_size_for_cost<C: Real>(solutions: Seq<SubsetView<C>>, i: int, j: int)
    requires
        have_defined_costs(solutions),
        0 <= i < j < front_of(solutions).len(),
    ensures
        front_of(solutions)[i].indices.len() < front_of(solutions)[j].indices.len(),
        front_of(solutions)[j].cost.spec_less(front_of(solutions)[i].cost),
{
    lemma_sorted_by_size(solutions);
    lemma_record_costs(ordering::sorted(by_size(), solutions), None);
}

/// The front is made of subsets that were found, and none of those that were found is both no
/// larger and cheaper than a member of the front.
pub proof fn law_front_is_nondominated<C: Real>(solutions: Seq<SubsetView<C>>, i: int, k: int)
    requires
        have_defined_costs(solutions),
        0 <= i < front_of(solutions).len(),
        0 <= k < solutions.len(),
    ensures
        solutions.contains(front_of(solutions)[i]),
        !(solutions[k].indices.len() <= front_of(solutions)[i].indices.len()
            && solutions[k].cost.spec_less(front_of(solutions)[i].cost)),
{
    let front = front_of(solutions);
    let s = ordering::sorted(by_size(), solutions);
    lemma_sorted_by_size(solutions);
    ordering::law_sorted_is_permutation(by_size(), solutions);
    lemma_record_costs(s, None);
    let (size, price) = (solutions[k].indices.len(), solutions[k].cost);
    assert(s.contains(solutions[k]));
    let m = choose|m: int| 0 <= m < s.len() && s[m] == solutions[k];
    lemma_record_exists(s, m);
    law_front_is_not_empty(solutions);
    if size <= front[i].indices.len() && price.spec_less(front[i].cost) {
        let j = lemma_record_covers(s, None, m);
        C::order_laws(front[j].cost, price, front[i].cost);
        if j < i {
            C::order_laws(front[i].cost, front[j].cost, front[i].cost);
        }
    }
}

/// Every subset that was found has a member of the front that is neither larger nor costs more.
pub proof fn law_front_covers<C: Real>(solutions: Seq<SubsetView<C>>, k: int)
    requires
        have_defined_costs(solutions),
        0 <= k < solutions.len(),
    ensures
        exists|j: int| {
            &&& 0 <= j < front_of(solutions).len()
            &&& (#[trigger] front_of(solutions)[j]).indices.len() <= solutions[k].indices.len()
            &&& float::at_most(front_of(solutions)[j].cost, solutions[k].cost)
        },
{
    let s = ordering::sorted(by_size(), solutions);
    lemma_sorted_by_size(solutions);
    ordering::law_sorted_is_permutation(by_size(), solutions);
    assert(s.contains(solutions[k]));
    let m = choose|m: int| 0 <= m < s.len() && s[m] == solutions[k];
    let j = lemma_record_covers(s, None, m);
    assert(front_of(solutions)[j].indices.len() <= solutions[k].indices.len());
}

/// The position of the recommended subset lies in the front.
pub proof fn law_selected_is_in_front<C: Real>(
    solutions: Seq<SubsetView<C>>,
    selection: ParetoSelection,
)
    requires
        solutions.len() > 0,
    ensures
        selected(solutions, selection) < solutions.len(),
{
    lemma_cheapest_bound(solutions, solutions.len());
    if solutions.len() >= 3 {
        lemma_farthest_bound(solutions, (solutions.len() - 2) as nat);
    }
}

proof fn lemma_cheapest_bound<C: Real>(solutions: Seq<SubsetView<C>>, upto: nat)
    ensures
        cheapest(solutions, upto) < upto || cheapest(solutions, upto) == 0,
    decreases upto,
{
    if upto > 1 {
        lemma_cheapest_bound(solutions, (upto - 1) as nat);
    }
}

proof fn lemma_farthest_bound<C: Real>(solutions: Seq<SubsetView<C>>, upto: nat)
    requires
        upto >= 1,
    ensures
        1 <= farthest(solutions, upto) <= upto,
    decreases upto,
{
    if upto > 1 {
        lemma_farthest_bound(solutions, (upto - 1) as nat);
    }
}

/// The smallest and the largest subset of a front are recommended where the size decides.
pub proof fn law_extreme_sizes_are_recommended<C: Real>(found: Seq<SubsetView<C>>, k: int)
    requires
        have_defined_costs(found),
        0 <= k < front_of(found).len(),
    ensures
        ({
            let front = front_of(found);
            let smallest = front[selected(front, ParetoSelection::MinSize) as int];
            let largest = front[selected(front, ParetoSelection::MaxSize) as int];
            smallest.indices.len() <= front[k].indices.len() <= largest.indices.len()
        }),
{
    let last = front_of(found).len() - 1;
    if k > 0 {
        law_front_trades_size_for_cost(found, 0, k);
    }
    if k < last {
        law_front_trades_size_for_cost(found, k, last);
    }
}

/// No subset comes before the one that is recommended for its cost, where the costs are numbers.
pub proof fn law_min_cost_is_best<C: Real>(solutions: Seq<SubsetView<C>>, k: int)
    requires
        have_defined_costs(solutions),
        0 <= k < solutions.len(),
    ensures
        !cost::is_better(
            solutions[k],
            solutions[selected(solutions, ParetoSelection::MinCost) as int],
        ),
{
    lemma_cheapest_is_best(solutions, solutions.len(), k);
}

proof fn lemma_cheapest_is_best<C: Real>(solutions: Seq<SubsetView<C>>, upto: nat, k: int)
    requires
        have_defined_costs(solutions),
        0 <= k < upto <= solutions.len(),
    ensures
        !cost::is_better(solutions[k], solutions[cheapest(solutions, upto) as int]),
    decreases upto,
{
    let a = solutions[k];
    C::order_laws(a.cost, a.cost, a.cost);
    cost::lemma_item_order_equal(a.indices, a.indices);
    if upto > 1 {
        let best = cheapest(solutions, (upto - 1) as nat) as int;
        lemma_cheapest_bound(solutions, (upto - 1) as nat);
        let last = solutions[upto - 1];
        cost::law_subset_order_reverses(last, solutions[best]);
        if k < upto - 1 {
            lemma_cheapest_is_best(solutions, (upto - 1) as nat, k);
            if cost::is_better(last, solutions[best]) {
                cost::law_subset_order_transitive(a, solutions[best], last);
            }
        }
    }
}

/// Orders subsets by size, then by cost, then by items.
struct BySize;

impl<C: Real> Precedence<Subset<C>> for BySize {
    open spec fn order(&self) -> spec_fn(Subset<C>, Subset<C>) -> bool {
        |a: Subset<C>, b: Subset<C>| by_size()(a@, b@)
    }

    open spec fn covers(&self, a: Subset<C>) -> bool {
        true
    }

    fn precedes(&self, a: &Subset<C>, b: &Subset<C>) -> (r: bool) {
        if a.indices.len() != b.indices.len() {
            a.indices.len() < b.indices.len()
        } else {
            compare_subsets(a, b) == Order::Less
        }
    }
}

/// The subsets that cost less than all those that are smaller, by size. The smallest one whose cost
/// is a number is among them. If no cost is a number, then the smallest subset is all there is.
pub fn nondominated<C: Real>(solutions: Vec<Subset<C>>) -> (r: Vec<Subset<C>>)
    ensures
        views(r@) == front_of(views(solutions@)),
        solutions@.len() > 0 ==> r@.len() > 0,
{
    let rule = BySize;
    let ghost all = views(solutions@);
    proof {
        ordering::lemma_sorted_views(
            <BySize as Precedence<Subset<C>>>::order(&rule),
            by_size::<C>(),
            solutions@,
        );
    }
    let by_size_now = sort_by(&rule, solutions);
    let ghost sorted_views = views(by_size_now@);
    let mut nondom: Vec<Subset<C>> = Vec::new();
    let mut best_cost_so_far: Option<C> = None;
    let mut smallest: Option<Subset<C>> = None;
    proof {
        assert(sorted_views.skip(0) =~= sorted_views);
        assert(views(nondom@) + record_costs(sorted_views, best_cost_so_far) =~= record_costs(
            sorted_views,
            best_cost_so_far,
        ));
    }
    for solution in it: by_size_now
        invariant
            sorted_views == views(it.seq()),
            views(nondom@) + record_costs(sorted_views.skip(it.index()), best_cost_so_far)
                == record_costs(sorted_views, None),
            nondom@.len() == 0 && it.index() > 0 ==> (smallest matches Some(first) && first@
                == sorted_views[0]),
            nondom@.len() == 0 && it.index() == 0 ==> smallest is None,
    {
        let ghost rest = sorted_views.skip(it.index());
        let ghost before = nondom@;
        proof {
            assert(rest.drop_first() =~= sorted_views.skip(it.index() + 1));
        }
        let cheaper = match best_cost_so_far {
            None => solution.cost.same(solution.cost),
            Some(best) => float::compare(solution.cost, best) == Order::Less,
        };
        if cheaper {
            best_cost_so_far = Some(solution.cost);
            nondom.push(solution);
            proof {
                assert(views(before) + (seq![solution@] + record_costs(
                    rest.drop_first(),
                    best_cost_so_far,
                )) =~= views(nondom@) + record_costs(rest.drop_first(), best_cost_so_far));
            }
        } else if nondom.len() == 0 && smallest.is_none() {
            smallest = Some(solution);
        }
    }
    assert(views(nondom@) =~= record_costs(sorted_views, None));
    if nondom.len() == 0 {
        if let Some(first) = smallest {
            nondom.push(first);
        }
    }
    proof {
        law_front_is_not_empty(all);
        assert(views(nondom@) =~= front_of(all));
        assert(views(nondom@).len() == nondom@.len());
    }
    nondom
}

/// The position of the first subset before which no other comes.
fn find_cheapest<C: Real>(solutions: &Vec<Subset<C>>) -> (r: usize)
    ensures
        r == cheapest(views(solutions@), solutions@.len()),
        r < solutions@.len() || r == 0,
{
    let mut best: usize = 0;
    let mut k: usize = 1;
    while k < solutions.len()
        invariant
            k >= 1,
            best < solutions@.len() || best == 0,
            best < k,
            k <= solutions@.len() || k == 1,
            best == cheapest(views(solutions@), k as nat),
        decreases solutions@.len() - k,
    {
        if compare_subsets(&solutions[k], &solutions[best]) == Order::Less {
            best = k;
        }
        k = k + 1;
    }
    best
}

/// The position of the recommended subset.
pub fn select_pareto<C: Real>(solutions: &Vec<Subset<C>>, selection: ParetoSelection) -> (r: usize)
    ensures
        r == selected(views(solutions@), selection),
        solutions@.len() > 0 ==> r < solutions@.len(),
{
    match selection {
        ParetoSelection::MinCost => find_cheapest(solutions),
        ParetoSelection::MinSize => 0,
        ParetoSelection::MaxSize => if solutions.len() == 0 {
            0
        } else {
            solutions.len() - 1
        },
        ParetoSelection::Knee => select_knee(solutions),
    }
}

/// The position of the subset that is farthest from the line through the first and the last one.
pub fn select_knee<C: Real>(solutions: &Vec<Subset<C>>) -> (r: usize)
    ensures
        r == selected(views(solutions@), ParetoSelection::Knee),
        solutions@.len() > 0 ==> r < solutions@.len(),
{
    if solutions.len() < 3 {
        return find_cheapest(solutions);
    }
    let ghost all = views(solutions@);
    let first = &solutions[0];
    let last = &solutions[solutions.len() - 1];
    let x1 = C::from_u64(first.indices.len() as u64);
    let y1 = first.cost;
    let x2 = C::from_u64(last.indices.len() as u64);
    let y2 = last.cost;
    let denominator = distance_of(x1, y1, x2, y2);
    if float::is_at_most(denominator, C::decimal(1, 12)) {
        return find_cheapest(solutions);
    }
    let mut best: usize = 1;
    let mut best_distance = point_line_distance(
        C::from_u64(solutions[1].indices.len() as u64),
        solutions[1].cost,
        x1,
        y1,
        x2,
        y2,
    );
    let mut k: usize = 2;
    while k < solutions.len() - 1
        invariant
            solutions@.len() >= 3,
            all == views(solutions@),
            x1 == size_of(all[0]),
            y1 == all[0].cost,
            x2 == size_of(all[all.len() - 1]),
            y2 == all[all.len() - 1].cost,
            2 <= k <= solutions@.len() - 1,
            1 <= best < k,
            best == farthest(all, (k - 1) as nat),
            best_distance == bulge(all, best as int),
        decreases solutions@.len() - k,
    {
        let distance = point_line_distance(
            C::from_u64(solutions[k].indices.len() as u64),
            solutions[k].cost,
            x1,
            y1,
            x2,
            y2,
        );
        if float::compare(best_distance, distance) != Order::Greater {
            best = k;
            best_distance = distance;
        }
        k = k + 1;
    }
    best
}

/// The distance of two points.
fn distance_of<C: Real>(x1: C, y1: C, x2: C, y2: C) -> (r: C)
    ensures
        r == span(x1, y1, x2, y2),
{
    let dy = y2.minus(y1);
    let dx = x2.minus(x1);
    dy.times(dy).plus(dx.times(dx)).root()
}

/// The distance of the point `(x, y)` from the line through two points.
pub fn point_line_distance<C: Real>(x: C, y: C, x1: C, y1: C, x2: C, y2: C) -> (r: C)
    ensures
        r == line_distance(x, y, x1, y1, x2, y2),
{
    y2.minus(y1).times(x).minus(x2.minus(x1).times(y)).plus(x2.times(y1)).minus(
        y2.times(x1),
    ).magnitude().over(distance_of(x1, y1, x2, y2))
}

/// `RangeInclusive::start`: the lower bound of a range that has not been iterated to its end.
pub assume_specification<Idx>[ RangeInclusive::<Idx>::start ](range: &RangeInclusive<Idx>) -> (r:
    &Idx)
    ensures
        !range@.exhausted ==> *r == range@.start,
;

/// `RangeInclusive::end`: the upper bound of a range that has not been iterated to its end.
pub assume_specification<Idx>[ RangeInclusive::<Idx>::end ](range: &RangeInclusive<Idx>) -> (r:
    &Idx)
    ensures
        !range@.exhausted ==> *r == range@.end,
;

/// An error among the first sizes is an error among more of them.
proof fn lemma_error_remains<P: SubsetSelectionCost>(
    problem: P,
    min: nat,
    count: nat,
    more: nat,
    n_starts_per_size: nat,
    seed: u64,
    max_local_iterations: usize,
)
    requires
        count <= more,
        solutions_by_size(
            problem,
            min,
            count,
            n_starts_per_size,
            seed,
            max_local_iterations,
        ) is Err,
    ensures
        solutions_by_size(problem, min, more, n_starts_per_size, seed, max_local_iterations)
            == solutions_by_size(
            problem,
            min,
            count,
            n_starts_per_size,
            seed,
            max_local_iterations,
        ),
    decreases more,
{
    if count < more {
        lemma_error_remains(
            problem,
            min,
            count,
            (more - 1) as nat,
            n_starts_per_size,
            seed,
            max_local_iterations,
        );
    }
}

/// The subsets that are found have the sizes from `min` on, one after the other, and each size has
/// its own seed: the next word of the generator that `seed` gives.
pub proof fn law_every_size_has_its_own_seed<P: SubsetSelectionCost>(
    problem: P,
    min: nat,
    count: nat,
    n_starts_per_size: nat,
    seed: u64,
    max_local_iterations: usize,
    i: int,
)
    requires
        0 <= i < count,
    ensures
        solutions_by_size(
            problem,
            min,
            count,
            n_starts_per_size,
            seed,
            max_local_iterations,
        ) matches Ok(solutions) ==> solutions.len() == count && starts::solution(
            problem,
            (min + i) as usize,
            n_starts_per_size,
            random::seeded_stream(seed)[i as nat],
            max_local_iterations,
        ) == Ok::<SubsetView<P::Cost>, ErrorView>(solutions[i]),
    decreases count,
{
    let k = (count - 1) as nat;
    if i < k {
        law_every_size_has_its_own_seed(
            problem,
            min,
            k,
            n_starts_per_size,
            seed,
            max_local_iterations,
            i,
        );
    } else if k > 0 {
        law_every_size_has_its_own_seed(
            problem,
            min,
            k,
            n_starts_per_size,
            seed,
            max_local_iterations,
            0,
        );
    }
}

/// The subsets that are selected at the sizes from `min` to `max`.
fn solve_sizes<P: SubsetSelectionCost>(
    problem: &P,
    min: usize,
    max: usize,
    n_starts_per_size: usize,
    seed: u64,
    max_local_iterations: usize,
) -> (r: Result<Vec<Subset<P::Cost>>, Error>)
    requires
        min <= max,
    ensures
        match r {
            Ok(solutions) => Ok(views(solutions@)),
            Err(e) => Err(e@),
        } == solutions_by_size(
            *problem,
            min as nat,
            (max - min + 1) as nat,
            n_starts_per_size as nat,
            seed,
            max_local_iterations,
        ),
        r matches Ok(solutions) ==> {
            &&& solutions@.len() == max - min + 1
            &&& forall|i: int|
                0 <= i < solutions@.len() ==> starts::is_solution(
                    *problem,
                    (#[trigger] solutions@[i])@,
                    (min + i) as nat,
                )
        },
        cost::is_total(*problem) && n_starts_per_size > 0 && 2 <= min && max
            <= problem.item_count() ==> r is Ok,
{
    let mut rng = random::seeded(seed);
    let mut solutions: Vec<Subset<P::Cost>> = Vec::new();
    let mut target_size: usize = min;
    assert(views(solutions@) =~= Seq::empty());
    loop
        invariant
            min <= target_size <= max,
            solutions@.len() == target_size - min,
            forall|i: int|
                0 <= i < solutions@.len() ==> starts::is_solution(
                    *problem,
                    (#[trigger] solutions@[i])@,
                    (min + i) as nat,
                ),
            forall|i: nat|
                #[trigger] random::upcoming(rng)[i] == random::seeded_stream(seed)[(i + target_size
                    - min) as nat],
            solutions_by_size(
                *problem,
                min as nat,
                (target_size - min) as nat,
                n_starts_per_size as nat,
                seed,
                max_local_iterations,
            ) == Ok::<Seq<SubsetView<P::Cost>>, ErrorView>(views(solutions@)),
        decreases max - target_size,
    {
        let size_seed: u64 = random::next_word(&mut rng);
        let ghost before = solutions@;
        assert(size_seed == random::seeded_stream(seed)[(target_size - min) as nat]);
        match solve(problem, target_size, n_starts_per_size, size_seed, max_local_iterations) {
            Err(e) => {
                proof {
                    lemma_error_remains(
                        *problem,
                        min as nat,
                        (target_size - min + 1) as nat,
                        (max - min + 1) as nat,
                        n_starts_per_size as nat,
                        seed,
                        max_local_iterations,
                    );
                }
                return Err(e);
            },
            Ok(s) => {
                solutions.push(s);
                assert(views(solutions@) =~= views(before).push(s@));
            },
        }
        if target_size == max {
            return Ok(solutions);
        }
        target_size = target_size + 1;
    }
}

/// Run [`solve`] at every size in `size_range` and assemble a Pareto front.
///
/// The range must not have been iterated to its end.
pub fn solve_pareto<P: SubsetSelectionCost>(
    problem: &P,
    size_range: RangeInclusive<usize>,
    n_starts_per_size: usize,
    seed: u64,
    max_local_iterations: usize,
    selection: ParetoSelection,
) -> (r: Result<ParetoFront<P::Cost>, Error>)
    requires
        !size_range@.exhausted,
    ensures
        error::outcome_view(r) == pareto_front(
            *problem,
            size_range@.start as nat,
            size_range@.end as nat,
            n_starts_per_size as nat,
            seed,
            max_local_iterations,
            selection,
        ),
        r matches Ok(front) ==> {
            &&& front.selected_index < front.solutions@.len()
            &&& forall|i: int|
                0 <= i < front.solutions@.len() ==> is_member(
                    *problem,
                    size_range@.start as nat,
                    size_range@.end as nat,
                    (#[trigger] front.solutions@[i])@,
                )
        },
        size_range@.start <= size_range@.end && cost::is_total(*problem) && n_starts_per_size > 0
            && 2 <= size_range@.start && size_range@.end <= problem.item_count() ==> r is Ok,
{
    let min: usize = *size_range.start();
    let max: usize = *size_range.end();
    if min > max {
        return Err(
            Error::invalid_parameter("`GreedySubsetSelection`: size range must not be empty."),
        );
    }
    match solve_sizes(problem, min, max, n_starts_per_size, seed, max_local_iterations) {
        Err(e) => Err(e),
        Ok(solutions) => {
            let ghost found = views(solutions@);
            let solutions = nondominated(solutions);
            proof {
                law_front_is_not_empty(found);
                assert forall|i: int| 0 <= i < solutions@.len() implies is_member(
                    *problem,
                    min as nat,
                    max as nat,
                    (#[trigger] solutions@[i])@,
                ) by {
                    assert(found.contains(front_of(found)[i]));
                    assert(views(solutions@)[i] == solutions@[i]@);
                    let k = choose|k: int| 0 <= k < found.len() && found[k] == solutions@[i]@;
                    assert(starts::is_solution(*problem, found[k], (min + k) as nat));
                }
            }
            let selected_index: usize = select_pareto(&solutions, selection);
            Ok(ParetoFront { solutions, selected_index })
        },
    }
}

} // verus!
