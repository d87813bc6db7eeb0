//! First-improvement local search by swapping one item for another.

use crate::error;
use crate::error::{Error, ErrorView};
use crate::exact;
use crate::exact::Reading;
use crate::float;
use crate::float::Real;
use crate::greedysubsetselection::cost;
use crate::greedysubsetselection::cost::{Subset, SubsetSelectionCost, SubsetView};
use crate::greedysubsetselection::subset;
use crate::greedysubsetselection::subset::{insert_sorted, remove_sorted};
use vstd::prelude::*;

verus! {

/// A swap and the cost after it.
pub struct Swap<C> {
    /// The item that leaves.
    pub removed: usize,
    /// The item that enters.
    pub added: usize,
    /// The cost after the swap.
    pub cost: C,
}

/// By how much a swap must lower the cost.
pub open spec fn tolerance<C: Real>() -> C {
    C::spec_decimal(1, 12)
}

/// Whether a cost is low enough for a swap to be made.
pub open spec fn is_improvement<C: Real>(new_cost: C, cost_now: C) -> bool {
    new_cost.spec_less(cost_now.spec_minus(tolerance()))
}

/// The first swap, from position `a` of `selected` and position `b` of `others` on, that lowers
/// the cost, or the first error on the way to it. The swaps are tried by the item that leaves and
/// then by the item that enters.
pub open spec fn first_improvement<P: SubsetSelectionCost>(
    problem: P,
    selected: Seq<usize>,
    others: Seq<usize>,
    cost_now: P::Cost,
    a: int,
    b: int,
) -> Result<Option<Swap<P::Cost>>, ErrorView>
    decreases selected.len() - a, others.len() - b,
{
    if a >= selected.len() {
        Ok(None)
    } else if b >= others.len() {
        first_improvement(problem, selected, others, cost_now, a + 1, 0)
    } else {
        match problem.cost_of(subset::swapped(selected, selected[a], others[b])) {
            Err(e) => Err(e),
            Ok(c) => if is_improvement(c, cost_now) {
                Ok(Some(Swap { removed: selected[a], added: others[b], cost: c }))
            } else {
                first_improvement(problem, selected, others, cost_now, a, b + 1)
            },
        }
    }
}

/// The first swap of `s` that lowers its cost.
pub open spec fn improvement_of<P: SubsetSelectionCost>(
    problem: P,
    s: SubsetView<P::Cost>,
) -> Result<Option<Swap<P::Cost>>, ErrorView> {
    first_improvement(
        problem,
        s.indices,
        subset::complement(problem.item_count(), s.indices),
        s.cost,
        0,
        0,
    )
}

/// `s` after a swap.
pub open spec fn after_swap<C>(s: SubsetView<C>, swap: Swap<C>) -> SubsetView<C> {
    SubsetView {
        indices: subset::swapped(s.indices, swap.removed, swap.added),
        cost: swap.cost,
    }
}

/// `s` after up to `steps` swaps, each the first that lowers the cost.
pub open spec fn descended<P: SubsetSelectionCost>(
    problem: P,
    s: SubsetView<P::Cost>,
    steps: nat,
) -> Result<SubsetView<P::Cost>, ErrorView>
    decreases steps,
{
    if steps == 0 {
        Ok(s)
    } else {
        match improvement_of(problem, s) {
            Err(e) => Err(e),
            Ok(None) => Ok(s),
            Ok(Some(swap)) => descended(problem, after_swap(s, swap), (steps - 1) as nat),
        }
    }
}

/// `s` with its cost, which is asked for if it is not known: if it is positive infinity.
pub open spec fn with_cost<P: SubsetSelectionCost>(
    problem: P,
    s: SubsetView<P::Cost>,
) -> Result<SubsetView<P::Cost>, ErrorView> {
    if s.cost.spec_same(P::Cost::spec_infinity()) {
        match problem.cost_of(s.indices) {
            Err(e) => Err(e),
            Ok(c) => Ok(SubsetView { indices: s.indices, cost: c }),
        }
    } else {
        Ok(s)
    }
}

/// What local search makes of `s`.
pub open spec fn searched<P: SubsetSelectionCost>(
    problem: P,
    s: SubsetView<P::Cost>,
    max_local_iterations: nat,
) -> Result<SubsetView<P::Cost>, ErrorView> {
    match with_cost(problem, s) {
        Err(e) => Err(e),
        Ok(start) => descended(problem, start, max_local_iterations),
    }
}

/// A swap that is found exchanges a selected item for one that is not selected.
pub proof fn lemma_first_improvement<P: SubsetSelectionCost>(
    problem: P,
    selected: Seq<usize>,
    others: Seq<usize>,
    cost_now: P::Cost,
    a: int,
    b: int,
)
    requires
        0 <= a,
        0 <= b,
    ensures
        first_improvement(problem, selected, others, cost_now, a, b) matches Ok(Some(swap)) ==> {
            &&& selected.contains(swap.removed)
            &&& others.contains(swap.added)
            &&& problem.cost_of(subset::swapped(selected, swap.removed, swap.added)) == Ok::<
                P::Cost,
                ErrorView,
            >(swap.cost)
            &&& is_improvement(swap.cost, cost_now)
        },
    decreases selected.len() - a, others.len() - b,
{
    if a < selected.len() {
        if b >= others.len() {
            lemma_first_improvement(problem, selected, others, cost_now, a + 1, 0);
        } else {
            lemma_first_improvement(problem, selected, others, cost_now, a, b + 1);
        }
    }
}

/// Where no swap is found, none of those that were tried lowers the cost.
proof fn lemma_none_improves<P: SubsetSelectionCost>(
    problem: P,
    selected: Seq<usize>,
    others: Seq<usize>,
    cost_now: P::Cost,
    a: int,
    b: int,
    i: int,
    j: int,
)
    requires
        0 <= a,
        0 <= b,
        first_improvement(problem, selected, others, cost_now, a, b) == Ok::<
            Option<Swap<P::Cost>>,
            ErrorView,
        >(None),
        a < i || (a == i && b <= j),
        i < selected.len(),
        0 <= j < others.len(),
    ensures
        problem.cost_of(subset::swapped(selected, selected[i], others[j])) matches Ok(c)
            && !is_improvement(c, cost_now),
    decreases selected.len() - a, others.len() - b,
{
    if b >= others.len() {
        lemma_none_improves(problem, selected, others, cost_now, a + 1, 0, i, j);
    } else if a < i || b < j {
        lemma_none_improves(problem, selected, others, cost_now, a, b + 1, i, j);
    }
}

/// A subset without an improving swap is a local optimum: no exchange of a selected item for
/// another lowers its cost by more than the tolerance.
pub proof fn law_no_swap_improves<P: SubsetSelectionCost>(
    problem: P,
    s: SubsetView<P::Cost>,
    removed: usize,
    added: usize,
)
    requires
        problem.item_count() <= usize::MAX,
        improvement_of(problem, s) == Ok::<Option<Swap<P::Cost>>, ErrorView>(None),
        s.indices.contains(removed),
        added < problem.item_count(),
        !s.indices.contains(added),
    ensures
        problem.cost_of(subset::swapped(s.indices, removed, added)) matches Ok(c)
            && !is_improvement(c, s.cost),
{
    let others = subset::complement(problem.item_count(), s.indices);
    subset::law_complement(problem.item_count(), s.indices);
    assert(others.contains(added));
    let i = choose|i: int| 0 <= i < s.indices.len() && s.indices[i] == removed;
    let j = choose|j: int| 0 <= j < others.len() && others[j] == added;
    lemma_none_improves(problem, s.indices, others, s.cost, 0, 0, i, j);
}

/// An improving swap keeps the size of the subset, carries the cost that the problem gives the
/// new subset, and lowers the cost.
pub proof fn law_swap_improves<P: SubsetSelectionCost>(
    problem: P,
    s: SubsetView<P::Cost>,
    swap: Swap<P::Cost>,
)
    requires
        problem.item_count() <= usize::MAX,
        subset::is_subset(s.indices, problem.item_count()),
        improvement_of(problem, s) == Ok::<Option<Swap<P::Cost>>, ErrorView>(Some(swap)),
    ensures
        cost::is_priced(problem, after_swap(s, swap)),
        after_swap(s, swap).indices.len() == s.indices.len(),
        after_swap(s, swap).cost.spec_less(s.cost),
        s.indices.contains(swap.removed),
        !s.indices.contains(swap.added),
        swap.added < problem.item_count(),
{
    let n = problem.item_count();
    let others = subset::complement(n, s.indices);
    lemma_first_improvement(problem, s.indices, others, s.cost, 0, 0);
    subset::law_complement(n, s.indices);
    subset::law_swapped(s.indices, swap.removed, swap.added, n);
    let bound = s.cost.spec_minus(tolerance());
    P::Cost::subtraction_laws(s.cost, 1, 12);
    P::Cost::order_laws(swap.cost, bound, s.cost);
}

/// A swap is made where it lowers the cost by more than `1e-12`.
pub proof fn law_improvement_exceeds_tolerance<C: Real>(
    reading: Reading<C>,
    new_cost: C,
    cost_now: C,
)
    requires
        reading.is_ideal(),
        float::finite(new_cost),
        float::finite(cost_now),
    ensures
        is_improvement(new_cost, cost_now) <==> reading.at(cost_now) - reading.at(new_cost)
            > 1 as real / exact::power_of_ten(12),
{
    let (a, b) = (reading.at(new_cost), reading.at(cost_now));
    let t = 1 as real / exact::power_of_ten(12);
    exact::lemma_at(reading, new_cost);
    exact::lemma_at(reading, cost_now);
    exact::lemma_decimal(reading, 1, 12);
    exact::lemma_ideal(reading, cost_now, tolerance(), b, t);
    exact::lemma_order(reading, new_cost, cost_now.spec_minus(tolerance()), a, b - t);
}

/// Local search keeps the size of a subset and never makes its cost worse. The result carries the
/// cost that the problem gives it if the subset did.
pub proof fn law_descent_never_worsens<P: SubsetSelectionCost>(
    problem: P,
    s: SubsetView<P::Cost>,
    steps: nat,
)
    requires
        problem.item_count() <= usize::MAX,
        subset::is_subset(s.indices, problem.item_count()),
    ensures
        descended(problem, s, steps) matches Ok(r) ==> {
            &&& subset::is_subset(r.indices, problem.item_count())
            &&& r.indices.len() == s.indices.len()
            &&& r.cost == s.cost || r.cost.spec_less(s.cost)
            &&& cost::is_priced(problem, s) ==> cost::is_priced(problem, r)
        },
    decreases steps,
{
    if steps > 0 {
        if let Ok(Some(swap)) = improvement_of(problem, s) {
            let next = after_swap(s, swap);
            law_swap_improves(problem, s, swap);
            law_descent_never_worsens(problem, next, (steps - 1) as nat);
            if let Ok(r) = descended(problem, s, steps) {
                P::Cost::order_laws(r.cost, next.cost, s.cost);
            }
        }
    }
}

/// The cost after local search is a number if the costs that the problem gives are and the cost
/// before was.
pub proof fn lemma_searched_cost<P: SubsetSelectionCost>(
    problem: P,
    s: SubsetView<P::Cost>,
    steps: nat,
)
    requires
        cost::has_defined_costs(problem),
        float::defined(s.cost) || s.cost == P::Cost::spec_infinity(),
    ensures
        searched(problem, s, steps) matches Ok(r) ==> float::defined(r.cost),
{
    P::Cost::order_laws(s.cost, s.cost, s.cost);
    if let Ok(start) = with_cost(problem, s) {
        lemma_descended_cost(problem, start, steps);
    }
}

proof fn lemma_descended_cost<P: SubsetSelectionCost>(
    problem: P,
    s: SubsetView<P::Cost>,
    steps: nat,
)
    requires
        cost::has_defined_costs(problem),
        float::defined(s.cost),
    ensures
        descended(problem, s, steps) matches Ok(r) ==> float::defined(r.cost),
    decreases steps,
{
    if steps > 0 {
        if let Ok(Some(swap)) = improvement_of(problem, s) {
            lemma_first_improvement(
                problem,
                s.indices,
                subset::complement(problem.item_count(), s.indices),
                s.cost,
                0,
                0,
            );
            lemma_descended_cost(problem, after_swap(s, swap), (steps - 1) as nat);
        }
    }
}

/// `s` after exactly `count` swaps, each the first that lowers the cost, if there are that many.
pub open spec fn after_swaps<P: SubsetSelectionCost>(
    problem: P,
    s: SubsetView<P::Cost>,
    count: nat,
) -> Option<SubsetView<P::Cost>>
    decreases count,
{
    if count == 0 {
        Some(s)
    } else {
        match improvement_of(problem, s) {
            Ok(Some(swap)) => after_swaps(problem, after_swap(s, swap), (count - 1) as nat),
            _ => None,
        }
    }
}

/// Local search makes no more swaps than it is allowed, and stops before only at a subset that no
/// swap improves.
pub proof fn law_descent_stops_at_optimum<P: SubsetSelectionCost>(
    problem: P,
    s: SubsetView<P::Cost>,
    steps: nat,
)
    ensures
        descended(problem, s, steps) matches Ok(r) ==> exists|count: nat|
            count <= steps && #[trigger] after_swaps(problem, s, count) == Some(r) && (count < steps
                ==> improvement_of(problem, r) == Ok::<Option<Swap<P::Cost>>, ErrorView>(None)),
    decreases steps,
{
    if let Ok(r) = descended(problem, s, steps) {
        if steps == 0 {
        } else {
            match improvement_of(problem, s) {
                Ok(Some(swap)) => {
                    let next = after_swap(s, swap);
                    law_descent_stops_at_optimum(problem, next, (steps - 1) as nat);
                    let count = choose|count: nat|
                        count <= steps - 1 && #[trigger] after_swaps(problem, next, count) == Some(r)
                            && (count < steps - 1 ==> improvement_of(problem, r) == Ok::<
                            Option<Swap<P::Cost>>,
                            ErrorView,
                        >(None));
                    assert(after_swaps(problem, s, count + 1) == Some(r));
                },
                _ => {
                    assert(after_swaps(problem, s, 0) == Some(r));
                },
            }
        }
    }
}

/// Finds the first swap that lowers the cost.
fn find_improvement<P: SubsetSelectionCost>(
    problem: &P,
    selected: &Vec<usize>,
    unselected: &Vec<usize>,
    cost_now: P::Cost,
) -> (r: Result<Option<Swap<P::Cost>>, Error>)
    requires
        subset::is_subset(selected@, problem.item_count()),
        problem.item_count() <= usize::MAX,
        unselected@ == subset::complement(problem.item_count(), selected@),
    ensures
        error::outcome(r) == first_improvement(
            *problem,
            selected@,
            unselected@,
            cost_now,
            0,
            0,
        ),
        cost::is_total(*problem) ==> r is Ok,
{
    let ghost whole = first_improvement(*problem, selected@, unselected@, cost_now, 0, 0);
    proof {
        subset::law_complement(problem.item_count(), selected@);
    }
    let mut a: usize = 0;
    while a < selected.len()
        invariant
            a <= selected@.len(),
            subset::is_subset(selected@, problem.item_count()),
            forall|x: usize|
                #[trigger] unselected@.contains(x) <==> x < problem.item_count()
                    && !selected@.contains(x),
            whole == first_improvement(*problem, selected@, unselected@, cost_now, 0, 0),
            whole == first_improvement(
                *problem,
                selected@,
                unselected@,
                cost_now,
                a as int,
                0,
            ),
        decreases selected@.len() - a,
    {
        let removed: usize = selected[a];
        let mut b: usize = 0;
        while b < unselected.len()
            invariant
                a < selected@.len(),
                removed == selected@[a as int],
                selected@.contains(removed),
                b <= unselected@.len(),
                subset::is_subset(selected@, problem.item_count()),
                forall|x: usize|
                    #[trigger] unselected@.contains(x) <==> x < problem.item_count()
                        && !selected@.contains(x),
                whole == first_improvement(*problem, selected@, unselected@, cost_now, 0, 0),
                whole == first_improvement(
                    *problem,
                    selected@,
                    unselected@,
                    cost_now,
                    a as int,
                    b as int,
                ),
            decreases unselected@.len() - b,
        {
            let added: usize = unselected[b];
            assert(unselected@.contains(added));
            proof {
                subset::law_swapped(selected@, removed, added, problem.item_count());
            }
            match problem.cost_with_swapped(selected.as_slice(), removed, added) {
                Err(e) => {
                    return Err(e);
                },
                Ok(new_cost) => {
                    if new_cost.less(cost_now.minus(P::Cost::decimal(1, 12))) {
                        return Ok(Some(Swap { removed, added, cost: new_cost }));
                    }
                },
            }
            b = b + 1;
        }
        a = a + 1;
    }
    Ok(None)
}

/// Swaps items as long as that lowers the cost, at most `max_local_iterations` times.
///
/// A cost of positive infinity stands for a cost that has not been asked for.
#[verifier::loop_isolation(false)]
pub fn local_search<P: SubsetSelectionCost>(
    problem: &P,
    initial: Subset<P::Cost>,
    max_local_iterations: usize,
) -> (r: Result<Subset<P::Cost>, Error>)
    requires
        subset::is_subset(initial.indices@, problem.item_count()),
    ensures
        error::outcome_view(r) == searched(*problem, initial@, max_local_iterations as nat),
        r matches Ok(s) ==> {
            &&& subset::is_subset(s.indices@, problem.item_count())
            &&& s.indices@.len() == initial.indices@.len()
            &&& initial.cost.spec_same(P::Cost::spec_infinity()) || cost::is_priced(
                *problem,
                initial@,
            ) ==> cost::is_priced(*problem, s@)
        },
        cost::is_total(*problem) ==> r is Ok,
{
    let n = problem.n_items();
    let ghost start = initial@;
    let mut selected = initial.indices;
    let mut unselected = subset::unselected(n, &selected);
    let mut cost_now = if initial.cost.same(P::Cost::infinity()) {
        match problem.cost(&selected) {
            Err(e) => {
                return Err(e);
            },
            Ok(c) => c,
        }
    } else {
        initial.cost
    };
    proof {
        law_descent_never_worsens(
            *problem,
            SubsetView { indices: selected@, cost: cost_now },
            max_local_iterations as nat,
        );
    }
    let mut iterations: usize = 0;
    while iterations < max_local_iterations
        invariant
            iterations <= max_local_iterations,
            n == problem.item_count(),
            subset::is_subset(selected@, problem.item_count()),
            unselected@ == subset::complement(problem.item_count(), selected@),
            searched(*problem, start, max_local_iterations as nat) == descended(
                *problem,
                SubsetView { indices: selected@, cost: cost_now },
                (max_local_iterations - iterations) as nat,
            ),
        decreases max_local_iterations - iterations,
    {
        let ghost current = SubsetView { indices: selected@, cost: cost_now };
        match find_improvement(problem, &selected, &unselected, cost_now) {
            Err(e) => {
                return Err(e);
            },
            Ok(None) => {
                return Ok(Subset { indices: selected, cost: cost_now });
            },
            Ok(Some(swap)) => {
                proof {
                    let n = problem.item_count();
                    law_swap_improves(*problem, current, swap);
                    subset::law_complement_of_swapped(n, selected@, swap.removed, swap.added);
                    subset::law_complement(n, selected@);
                }
                remove_sorted(&mut selected, swap.removed);
                insert_sorted(&mut selected, swap.added);
                remove_sorted(&mut unselected, swap.added);
                insert_sorted(&mut unselected, swap.removed);
                cost_now = swap.cost;
                iterations = iterations + 1;
                assert(SubsetView { indices: selected@, cost: cost_now } == after_swap(
                    current,
                    swap,
                ));
            },
        }
    }
    Ok(Subset { indices: selected, cost: cost_now })
}

} // verus!
