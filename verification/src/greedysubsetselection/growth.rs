//! Greedy growth of a subset from the best pair.

use crate::counting;
use crate::error;
use crate::error::{Error, ErrorView};
use crate::float;
use crate::float::{Order, Real};
use crate::greedysubsetselection::cost;
use crate::greedysubsetselection::cost::{
    compare_subsets, Subset, SubsetSelectionCost, SubsetView,
};
use crate::greedysubsetselection::subset;
use crate::greedysubsetselection::subset::insert_sorted;
use vstd::prelude::*;

verus! {

/// From how many of the first items the initial pair is taken.
pub const BOOTSTRAP_SCAN_LIMIT: usize = 200;

/// From which items the initial pair is taken: those below the result.
pub open spec fn scan_limit(n: nat) -> nat {
    if n < BOOTSTRAP_SCAN_LIMIT {
        n
    } else {
        BOOTSTRAP_SCAN_LIMIT as nat
    }
}

/// The pairs of items below `scan`, from the pair of `first` and `second` on, by their first and
/// then by their second item.
pub open spec fn pairs_from(scan: nat, first: nat, second: nat) -> Seq<Seq<usize>>
    decreases scan - first, scan - second,
{
    if first >= scan {
        Seq::empty()
    } else if second >= scan {
        pairs_from(scan, first + 1, first + 2)
    } else {
        seq![seq![first as usize, second as usize]] + pairs_from(scan, first, second + 1)
    }
}

/// The better of `best` and `next`: `next` only if it comes first.
pub open spec fn improved<C: Real>(
    best: Option<SubsetView<C>>,
    next: SubsetView<C>,
) -> SubsetView<C> {
    match best {
        Some(current) if !cost::is_better(next, current) => current,
        _ => next,
    }
}

/// The best of `best` and the given subsets, or the first error among their costs.
pub open spec fn best_of<P: SubsetSelectionCost>(
    problem: P,
    subsets: Seq<Seq<usize>>,
    best: Option<SubsetView<P::Cost>>,
) -> Result<Option<SubsetView<P::Cost>>, ErrorView>
    decreases subsets.len(),
{
    if subsets.len() == 0 {
        Ok(best)
    } else {
        match problem.cost_of(subsets[0]) {
            Err(e) => Err(e),
            Ok(c) => best_of(
                problem,
                subsets.drop_first(),
                Some(improved(best, SubsetView { indices: subsets[0], cost: c })),
            ),
        }
    }
}

/// The pair from which a subset is grown.
pub open spec fn initial_pair<P: SubsetSelectionCost>(problem: P) -> Result<
    Seq<usize>,
    ErrorView,
> {
    match best_of(problem, pairs_from(scan_limit(problem.item_count()), 0, 1), None) {
        Err(e) => Err(e),
        Ok(Some(best)) => Ok(best.indices),
        Ok(None) => Err(
            ErrorView::InvalidParameter(
                "`GreedySubsetSelection`: at least two items are required."@,
            ),
        ),
    }
}

/// The pair of the first items that comes before all the others.
pub fn bootstrap_initial_pair<P: SubsetSelectionCost>(problem: &P) -> (r: Result<Vec<usize>, Error>)
    ensures
        error::outcome_view(r) == initial_pair(*problem),
        r matches Ok(pair) ==> pair@.len() == 2 && subset::is_subset(
            pair@,
            problem.item_count(),
        ),
        cost::is_total(*problem) && problem.item_count() >= 2 ==> r is Ok,
{
    let n = problem.n_items();
    let scan: usize = if n < BOOTSTRAP_SCAN_LIMIT {
        n
    } else {
        BOOTSTRAP_SCAN_LIMIT
    };
    let ghost all = pairs_from(scan as nat, 0, 1);
    let mut best: Option<Subset<P::Cost>> = None;
    let ghost mut seen: Option<SubsetView<P::Cost>> = None;
    let mut first: usize = 0;
    while first < scan
        invariant
            first <= scan,
            scan <= n,
            scan <= 200,
            n == problem.item_count(),
            all == pairs_from(scan as nat, 0, 1),
            seen == match best {
                Some(b) => Some(b@),
                None => None,
            },
            best matches Some(b) ==> b.indices@.len() == 2 && subset::is_subset(
                b.indices@,
                problem.item_count(),
            ),
            best_of(*problem, all, None) == best_of(
                *problem,
                pairs_from(scan as nat, first as nat, (first + 1) as nat),
                seen,
            ),
            scan == scan_limit(problem.item_count()),
            first > 0 && scan >= 2 ==> best is Some,
        decreases scan - first,
    {
        let mut second: usize = first + 1;
        while second < scan
            invariant
                first < scan,
                first < second <= scan,
                scan <= n,
                scan <= 200,
                n == problem.item_count(),
                scan == scan_limit(problem.item_count()),
                scan >= 2 && (first > 0 || second > 1) ==> best is Some,
                all == pairs_from(scan as nat, 0, 1),
                seen == match best {
                    Some(b) => Some(b@),
                    None => None,
                },
                best matches Some(b) ==> b.indices@.len() == 2 && subset::is_subset(
                    b.indices@,
                    problem.item_count(),
                ),
                best_of(*problem, all, None) == best_of(
                    *problem,
                    pairs_from(scan as nat, first as nat, second as nat),
                    seen,
                ),
            decreases scan - second,
        {
            let mut indices: Vec<usize> = Vec::new();
            indices.push(first);
            indices.push(second);
            let ghost rest = pairs_from(scan as nat, first as nat, second as nat);
            proof {
                assert(rest[0] == indices@);
                assert(rest.drop_first() =~= pairs_from(
                    scan as nat,
                    first as nat,
                    (second + 1) as nat,
                ));
            }
            match problem.cost(&indices) {
                Err(e) => {
                    return Err(e);
                },
                Ok(c) => {
                    let candidate = Subset { indices, cost: c };
                    let replace = match &best {
                        None => true,
                        Some(current) => compare_subsets(&candidate, current) == Order::Less,
                    };
                    proof {
                        seen = Some(improved(seen, candidate@));
                    }
                    if replace {
                        best = Some(candidate);
                    }
                },
            }
            second = second + 1;
        }
        first = first + 1;
    }
    match best {
        Some(pair) => Ok(pair.indices),
        None => Err(
            Error::invalid_parameter("`GreedySubsetSelection`: at least two items are required."),
        ),
    }
}

/// The best of some subsets has the cost that the problem gives it, and none of the others comes
/// before it.
proof fn lemma_best_of<P: SubsetSelectionCost>(
    problem: P,
    subsets: Seq<Seq<usize>>,
    best: Option<SubsetView<P::Cost>>,
)
    requires
        cost::has_defined_costs(problem),
        best matches Some(b) ==> problem.cost_of(b.indices) == Ok::<P::Cost, ErrorView>(b.cost),
    ensures
        best_of(problem, subsets, best) matches Ok(Some(r)) ==> {
            &&& problem.cost_of(r.indices) == Ok::<P::Cost, ErrorView>(r.cost)
            &&& best matches Some(b) ==> !cost::is_better(b, r)
            &&& forall|i: int|
                0 <= i < subsets.len() ==> (problem.cost_of(#[trigger] subsets[i]) matches Ok(c)
                    && !cost::is_better(SubsetView { indices: subsets[i], cost: c }, r))
        },
    decreases subsets.len(),
{
    if subsets.len() == 0 {
        if let Some(b) = best {
            P::Cost::order_laws(b.cost, b.cost, b.cost);
            cost::lemma_item_order_equal(b.indices, b.indices);
        }
    } else if let Ok(c) = problem.cost_of(subsets[0]) {
        let first = SubsetView { indices: subsets[0], cost: c };
        let next = improved(best, first);
        let rest = subsets.drop_first();
        lemma_best_of(problem, rest, Some(next));
        if let Ok(Some(r)) = best_of(problem, subsets, best) {
            P::Cost::order_laws(next.cost, next.cost, next.cost);
            cost::lemma_item_order_equal(next.indices, next.indices);
            cost::law_subset_order_transitive(first, next, r);
            if let Some(b) = best {
                cost::law_subset_order_reverses(first, b);
                cost::law_subset_order_transitive(b, next, r);
            }
            assert forall|i: int| 0 <= i < subsets.len() implies (problem.cost_of(
                #[trigger] subsets[i],
            ) matches Ok(c) && !cost::is_better(SubsetView { indices: subsets[i], cost: c }, r)) by {
                if i > 0 {
                    assert(rest[i - 1] == subsets[i]);
                }
            }
        }
    }
}

/// Every pair is among the pairs.
proof fn lemma_pair_is_listed(scan: nat, first: nat, second: nat, a: usize, b: usize)
    requires
        a < b < scan,
        first < a || (first == a && second <= b),
    ensures
        pairs_from(scan, first, second).contains(seq![a, b]),
    decreases scan - first, scan - second,
{
    let all = pairs_from(scan, first, second);
    if second >= scan {
        lemma_pair_is_listed(scan, first + 1, first + 2, a, b);
    } else if first == a && second == b {
        assert(all[0] == seq![a, b]);
    } else {
        let rest = pairs_from(scan, first, second + 1);
        lemma_pair_is_listed(scan, first, second + 1, a, b);
        let i = choose|i: int| 0 <= i < rest.len() && rest[i] == seq![a, b];
        assert(all[i + 1] == seq![a, b]);
    }
}

/// No pair of the first 200 items comes before the pair from which a subset is grown.
pub proof fn law_initial_pair_is_best<P: SubsetSelectionCost>(problem: P, a: usize, b: usize)
    requires
        cost::has_defined_costs(problem),
        a < b < problem.item_count(),
        b < 200,
    ensures
        initial_pair(problem) matches Ok(pair) ==> {
            &&& problem.cost_of(pair) matches Ok(c)
            &&& problem.cost_of(seq![a, b]) matches Ok(d)
            &&& !cost::is_better(
                SubsetView { indices: seq![a, b], cost: d },
                SubsetView { indices: pair, cost: c },
            )
        },
{
    let pairs = pairs_from(scan_limit(problem.item_count()), 0, 1);
    lemma_best_of(problem, pairs, None);
    lemma_pair_is_listed(scan_limit(problem.item_count()), 0, 1, a, b);
}

/// What is known of an item that is not selected.
#[derive(Copy, Clone, Debug)]
pub struct Candidate<C> {
    /// By how much the item lowered the cost when it was last tried.
    pub delta: C,
    /// The cost with the item when it was last tried.
    pub cost: C,
    /// The round in which it was last tried.
    pub round: usize,
}

/// The first of the items below `upto` that waits with the greatest difference.
pub open spec fn top<C: Real>(queue: Seq<Option<Candidate<C>>>, upto: nat) -> Option<nat>
    decreases upto,
{
    if upto == 0 {
        None
    } else {
        let last = (upto - 1) as nat;
        match (queue[last as int], top(queue, last)) {
            (None, found) => found,
            (Some(_), None) => Some(last),
            (Some(candidate), Some(found)) => if float::order_of(
                candidate.delta,
                queue[found as int]->0.delta,
            ) == Order::Greater {
                Some(last)
            } else {
                Some(found)
            },
        }
    }
}

/// Which items wait with a difference from an earlier round.
pub open spec fn is_stale<C>(queue: Seq<Option<Candidate<C>>>, round: usize) -> spec_fn(
    int,
) -> bool {
    |i: int| queue[i] is Some && queue[i]->0.round != round
}

/// How many items wait with a difference from an earlier round.
pub open spec fn stale<C>(queue: Seq<Option<Candidate<C>>>, round: usize) -> nat {
    counting::count(queue.len(), is_stale(queue, round))
}

/// The greatest difference with which an item waits.
pub open spec fn top_delta<C: Real>(queue: Seq<Option<Candidate<C>>>) -> C {
    match top(queue, queue.len()) {
        None => C::spec_neg_infinity(),
        Some(i) => queue[i as int]->0.delta,
    }
}

/// An item that is taken, the cost with it, and what waits afterwards.
pub struct Pick<C> {
    /// The item.
    pub item: nat,
    /// The cost with the item.
    pub cost: C,
    /// The items that wait afterwards.
    pub queue: Seq<Option<Candidate<C>>>,
}

/// The item that is taken next. The item with the greatest difference is tried again if its
/// difference is from an earlier round, and taken unless another item then waits with a greater
/// difference.
pub open spec fn pick<P: SubsetSelectionCost>(
    problem: P,
    selected: Seq<usize>,
    cost_now: P::Cost,
    round: usize,
    queue: Seq<Option<Candidate<P::Cost>>>,
) -> Result<Pick<P::Cost>, ErrorView>
    decreases stale(queue, round),
{
    match top(queue, queue.len()) {
        None => Err(
            ErrorView::PotentialBug("`GreedySubsetSelection`: candidate heap unexpectedly empty."@),
        ),
        Some(item) => {
            let entry = queue[item as int]->0;
            let rest = queue.update(item as int, None);
            if entry.round == round {
                Ok(Pick { item, cost: entry.cost, queue: rest })
            } else {
                match problem.cost_of(subset::with_item(selected, item as usize)) {
                    Err(e) => Err(e),
                    Ok(c) => {
                        let delta = cost_now.spec_minus(c);
                        if float::order_of(delta, top_delta(rest)) != Order::Less {
                            Ok(Pick { item, cost: c, queue: rest })
                        } else {
                            let again = rest.update(
                                item as int,
                                Some(Candidate { delta, cost: c, round }),
                            );
                            proof {
                                lemma_top(queue, queue.len());
                                lemma_stale(queue, again, item as int, round);
                            }
                            pick(problem, selected, cost_now, round, again)
                        }
                    },
                }
            }
        },
    }
}

/// The item at the top waits.
pub proof fn lemma_top<C: Real>(queue: Seq<Option<Candidate<C>>>, upto: nat)
    requires
        upto <= queue.len(),
    ensures
        top(queue, upto) matches Some(i) ==> i < upto && queue[i as int] is Some,
        top(queue, upto) is None <==> forall|i: int| 0 <= i < upto ==> #[trigger] queue[i] is None,
    decreases upto,
{
    if upto > 0 {
        let last = (upto - 1) as nat;
        lemma_top(queue, last);
    }
}

/// The item at the top waits with the greatest difference, and is the first of those that do, where
/// the differences are numbers.
pub proof fn law_top_is_greatest<C: Real>(queue: Seq<Option<Candidate<C>>>, upto: nat)
    requires
        upto <= queue.len(),
        forall|i: int|
            0 <= i < queue.len() ==> (#[trigger] queue[i] matches Some(candidate) ==> float::defined(
                candidate.delta,
            )),
    ensures
        top(queue, upto) matches Some(t) ==> forall|i: int|
            0 <= i < upto && #[trigger] queue[i] is Some ==> float::at_most(
                queue[i]->0.delta,
                queue[t as int]->0.delta,
            ) && (i < t ==> queue[i]->0.delta.spec_less(queue[t as int]->0.delta)),
    decreases upto,
{
    if upto > 0 {
        let last = upto - 1;
        lemma_top(queue, last as nat);
        law_top_is_greatest(queue, last as nat);
        if let Some(t) = top(queue, upto) {
            let greatest = queue[t as int]->0.delta;
            assert forall|i: int| 0 <= i < upto && #[trigger] queue[i] is Some implies float::at_most(
                queue[i]->0.delta,
                greatest,
            ) && (i < t ==> queue[i]->0.delta.spec_less(greatest)) by {
                let delta = queue[i]->0.delta;
                if let Some(found) = top(queue, last as nat) {
                    C::order_laws(delta, queue[found as int]->0.delta, greatest);
                }
            }
        }
    }
}

/// Trying an item again leaves fewer items with differences from earlier rounds.
pub proof fn lemma_stale<C>(
    queue: Seq<Option<Candidate<C>>>,
    again: Seq<Option<Candidate<C>>>,
    item: int,
    round: usize,
)
    requires
        0 <= item < queue.len(),
        again.len() == queue.len(),
        is_stale(queue, round)(item),
        !is_stale(again, round)(item),
        forall|i: int| 0 <= i < queue.len() && i != item ==> #[trigger] queue[i] == again[i],
    ensures
        stale(again, round) < stale(queue, round),
{
    counting::lemma_count_remove(
        queue.len(),
        is_stale(queue, round),
        is_stale(again, round),
        item,
    );
}

/// The subset that is left after taking `steps` more items.
pub open spec fn grown<P: SubsetSelectionCost>(
    problem: P,
    selected: Seq<usize>,
    cost_now: P::Cost,
    round: usize,
    queue: Seq<Option<Candidate<P::Cost>>>,
    steps: nat,
) -> Result<SubsetView<P::Cost>, ErrorView>
    decreases steps,
{
    if steps == 0 {
        Ok(SubsetView { indices: selected, cost: cost_now })
    } else {
        match pick(problem, selected, cost_now, round, queue) {
            Err(e) => Err(e),
            Ok(p) => grown(
                problem,
                subset::with_item(selected, p.item as usize),
                p.cost,
                (round + 1) as usize,
                p.queue,
                (steps - 1) as nat,
            ),
        }
    }
}

/// The items below `upto` that are not selected, each tried in round 0, or the first error.
pub open spec fn first_queue<P: SubsetSelectionCost>(
    problem: P,
    selected: Seq<usize>,
    cost_now: P::Cost,
    upto: nat,
) -> Result<Seq<Option<Candidate<P::Cost>>>, ErrorView>
    decreases upto,
{
    if upto == 0 {
        Ok(Seq::empty())
    } else {
        let item = (upto - 1) as usize;
        match first_queue(problem, selected, cost_now, (upto - 1) as nat) {
            Err(e) => Err(e),
            Ok(queue) => if selected.contains(item) {
                Ok(queue.push(None))
            } else {
                match problem.cost_of(subset::with_item(selected, item)) {
                    Err(e) => Err(e),
                    Ok(c) => Ok(
                        queue.push(
                            Some(Candidate { delta: cost_now.spec_minus(c), cost: c, round: 0 }),
                        ),
                    ),
                }
            },
        }
    }
}

/// The subset of `target_size` items that is grown from the initial pair.
pub open spec fn greedy_subset<P: SubsetSelectionCost>(problem: P, target_size: nat) -> Result<
    SubsetView<P::Cost>,
    ErrorView,
> {
    match initial_pair(problem) {
        Err(e) => Err(e),
        Ok(pair) => match problem.cost_of(pair) {
            Err(e) => Err(e),
            Ok(c) => if target_size == 2 {
                Ok(SubsetView { indices: pair, cost: c })
            } else {
                match first_queue(problem, pair, c, problem.item_count()) {
                    Err(e) => Err(e),
                    Ok(queue) => grown(
                        problem,
                        pair,
                        c,
                        0,
                        queue,
                        if target_size < 2 {
                            0
                        } else {
                            (target_size - 2) as nat
                        },
                    ),
                }
            },
        },
    }
}

/// Whether all the items of one list are in another.
pub open spec fn is_part(a: Seq<usize>, b: Seq<usize>) -> bool {
    forall|x: usize| #[trigger] a.contains(x) ==> b.contains(x)
}

/// Growing keeps what is selected, and whoever can take many more items can take fewer, which are
/// among the many.
proof fn lemma_grown_chain<P: SubsetSelectionCost>(
    problem: P,
    selected: Seq<usize>,
    cost_now: P::Cost,
    round: usize,
    queue: Seq<Option<Candidate<P::Cost>>>,
    few: nat,
    many: nat,
)
    requires
        few <= many,
    ensures
        grown(problem, selected, cost_now, round, queue, many) matches Ok(b) ==> {
            &&& is_part(selected, b.indices)
            &&& grown(problem, selected, cost_now, round, queue, few) matches Ok(a)
            &&& is_part(a.indices, b.indices)
        },
    decreases many,
{
    if many > 0 {
        if let Ok(p) = pick(problem, selected, cost_now, round, queue) {
            let next = subset::with_item(selected, p.item as usize);
            subset::lemma_with_item_keeps(selected, p.item as usize);
            lemma_grown_chain(
                problem,
                next,
                p.cost,
                (round + 1) as usize,
                p.queue,
                if few == 0 {
                    0
                } else {
                    (few - 1) as nat
                },
                (many - 1) as nat,
            );
        }
    }
}

/// The greedy subsets form a chain: wherever a subset can be grown to one size, it can be grown to
/// every smaller one, and the smaller subset is part of the larger.
pub proof fn law_greedy_subsets_form_a_chain<P: SubsetSelectionCost>(
    problem: P,
    smaller: nat,
    larger: nat,
)
    requires
        2 <= smaller <= larger,
        greedy_subset(problem, larger) is Ok,
    ensures
        greedy_subset(problem, smaller) is Ok,
        is_part(
            greedy_subset(problem, smaller)->Ok_0.indices,
            greedy_subset(problem, larger)->Ok_0.indices,
        ),
{
    if larger > 2 {
        let pair = initial_pair(problem)->Ok_0;
        let c = problem.cost_of(pair)->Ok_0;
        let queue = first_queue(problem, pair, c, problem.item_count())->Ok_0;
        lemma_grown_chain(
            problem,
            pair,
            c,
            0,
            queue,
            (smaller - 2) as nat,
            (larger - 2) as nat,
        );
    }
}

/// Whether exactly the items that are not selected wait.
pub open spec fn is_queue_for<C>(queue: Seq<Option<Candidate<C>>>, selected: Seq<usize>) -> bool {
    forall|i: int|
        0 <= i < queue.len() ==> (#[trigger] queue[i] is Some <==> !selected.contains(i as usize))
}

/// Whether no item was tried after `round`, and those that were tried in it have the costs that the
/// problem gives them together with the selected items.
pub open spec fn is_up_to_date<P: SubsetSelectionCost>(
    problem: P,
    queue: Seq<Option<Candidate<P::Cost>>>,
    selected: Seq<usize>,
    round: usize,
) -> bool {
    forall|i: int|
        0 <= i < queue.len() ==> (#[trigger] queue[i] matches Some(candidate) ==> candidate.round
            <= round && (candidate.round == round ==> problem.cost_of(
            subset::with_item(selected, i as usize),
        ) == Ok::<P::Cost, ErrorView>(candidate.cost)))
}

/// The first item that waits with the greatest difference.
fn find_top<C: Real>(queue: &Vec<Option<Candidate<C>>>) -> (r: Option<usize>)
    ensures
        match r {
            Some(i) => top(queue@, queue@.len()) == Some(i as nat) && i < queue@.len()
                && queue@[i as int] is Some,
            None => top(queue@, queue@.len()) is None,
        },
{
    let mut found: Option<usize> = None;
    let mut k: usize = 0;
    while k < queue.len()
        invariant
            k <= queue@.len(),
            match found {
                Some(i) => top(queue@, k as nat) == Some(i as nat) && i < k && queue@[i as int] is Some,
                None => top(queue@, k as nat) is None,
            },
        decreases queue@.len() - k,
    {
        if let Some(candidate) = queue[k] {
            match found {
                None => {
                    found = Some(k);
                },
                Some(i) => {
                    if let Some(best) = queue[i] {
                        if float::compare(candidate.delta, best.delta) == Order::Greater {
                            found = Some(k);
                        }
                    }
                },
            }
        }
        k = k + 1;
    }
    found
}

/// Takes the next item out of the queue.
fn take_next<P: SubsetSelectionCost>(
    problem: &P,
    selected: &Vec<usize>,
    cost_now: P::Cost,
    round: usize,
    queue: &mut Vec<Option<Candidate<P::Cost>>>,
) -> (r: Result<(usize, P::Cost), Error>)
    requires
        subset::is_subset(selected@, problem.item_count()),
        old(queue)@.len() == problem.item_count(),
        is_queue_for(old(queue)@, selected@),
        is_up_to_date(*problem, old(queue)@, selected@, round),
    ensures
        match r {
            Err(e) => pick(*problem, selected@, cost_now, round, old(queue)@) == Err::<
                Pick<P::Cost>,
                ErrorView,
            >(e@),
            Ok(taken) => {
                &&& pick(*problem, selected@, cost_now, round, old(queue)@) == Ok::<
                    Pick<P::Cost>,
                    ErrorView,
                >(Pick { item: taken.0 as nat, cost: taken.1, queue: final(queue)@ })
                &&& taken.0 < problem.item_count()
                &&& !selected@.contains(taken.0)
                &&& final(queue)@.len() == old(queue)@.len()
                &&& is_queue_for(final(queue)@, subset::with_item(selected@, taken.0))
                &&& is_up_to_date(*problem, final(queue)@, selected@, round)
                &&& problem.cost_of(subset::with_item(selected@, taken.0)) == Ok::<
                    P::Cost,
                    ErrorView,
                >(taken.1)
            },
        },
        cost::is_total(*problem) && selected@.len() < problem.item_count() ==> r is Ok,
{
    loop
        invariant
            subset::is_subset(selected@, problem.item_count()),
            old(queue)@.len() == problem.item_count(),
            queue@.len() == problem.item_count(),
            is_queue_for(queue@, selected@),
            is_up_to_date(*problem, queue@, selected@, round),
            pick(*problem, selected@, cost_now, round, old(queue)@) == pick(
                *problem,
                selected@,
                cost_now,
                round,
                queue@,
            ),
        decreases stale(queue@, round),
    {
        let found = find_top(queue);
        match found {
            None => {
                proof {
                    lemma_top(queue@, queue@.len());
                    assert(queue.len() == queue@.len());
                    if selected@.len() < problem.item_count() {
                        let others = subset::complement(problem.item_count(), selected@);
                        subset::law_complement_size(problem.item_count(), selected@);
                        subset::law_complement(problem.item_count(), selected@);
                        assert(others.contains(others[0]));
                        assert(queue@[others[0] as int] is Some);
                    }
                }
                return Err(
                    Error::potential_bug(
                        "`GreedySubsetSelection`: candidate heap unexpectedly empty.",
                    ),
                );
            },
            Some(item) => {
                let ghost before = queue@;
                let entry_at = queue[item];
                if let Some(entry) = entry_at {
                    queue.set(item, None);
                    let ghost rest = queue@;
                    proof {
                        subset::law_with_item(selected@, item, problem.item_count());
                        assert(queue.len() == rest.len());
                    }
                    if entry.round == round {
                        return Ok((item, entry.cost));
                    }
                    match problem.cost_with_added(selected.as_slice(), item) {
                        Err(e) => {
                            return Err(e);
                        },
                        Ok(true_cost) => {
                            let true_delta = cost_now.minus(true_cost);
                            let current_top = match find_top(queue) {
                                None => P::Cost::neg_infinity(),
                                Some(i) => match queue[i] {
                                    Some(candidate) => candidate.delta,
                                    None => P::Cost::neg_infinity(),
                                },
                            };
                            if float::compare(true_delta, current_top) != Order::Less {
                                return Ok((item, true_cost));
                            }
                            let again = Candidate { delta: true_delta, cost: true_cost, round };
                            queue.set(item, Some(again));
                            proof {
                                lemma_stale(before, queue@, item as int, round);
                            }
                        },
                    }
                }
            },
        }
    }
}

/// By how much `item` lowers the cost of the selected items, where the problem gives both costs.
pub open spec fn gain<P: SubsetSelectionCost>(
    problem: P,
    selected: Seq<usize>,
    item: usize,
) -> P::Cost {
    problem.cost_of(selected)->Ok_0.spec_minus(
        problem.cost_of(subset::with_item(selected, item))->Ok_0,
    )
}

/// Whether it is a number by how much each of the other items lowers the cost of the selected ones.
pub open spec fn has_defined_gains<P: SubsetSelectionCost>(
    problem: P,
    selected: Seq<usize>,
) -> bool {
    forall|x: usize|
        x < problem.item_count() && !selected.contains(x) && problem.cost_of(
            subset::with_item(selected, x),
        ) is Ok ==> float::defined(#[trigger] gain(problem, selected, x))
}

/// Whether the difference with which an item waits is a number, is from `round` or from before, and
/// is by how much the item lowers the cost of the selected items if it is from `round`.
pub open spec fn is_measured<P: SubsetSelectionCost>(
    problem: P,
    selected: Seq<usize>,
    round: usize,
    queue: Seq<Option<Candidate<P::Cost>>>,
) -> bool {
    forall|i: int|
        0 <= i < queue.len() ==> (#[trigger] queue[i] matches Some(candidate) ==> {
            &&& float::defined(candidate.delta)
            &&& candidate.round <= round
            &&& candidate.round == round ==> {
                &&& problem.cost_of(subset::with_item(selected, i as usize)) == Ok::<
                    P::Cost,
                    ErrorView,
                >(candidate.cost)
                &&& candidate.delta == gain(problem, selected, i as usize)
            }
        })
}

/// Whether no item lowers the cost more when more items are selected.
pub open spec fn has_diminishing_returns<P: SubsetSelectionCost>(problem: P) -> bool {
    forall|a: Seq<usize>, b: Seq<usize>, x: usize|
        subset::is_subset(a, problem.item_count()) && subset::is_subset(b, problem.item_count())
            && is_part(a, b) && x < problem.item_count() && !b.contains(x) ==> float::at_most(
            #[trigger] gain(problem, b, x),
            #[trigger] gain(problem, a, x),
        )
}

/// The item that is taken lowers the cost at least as much as any other item that waits afterwards
/// lowered it when that was last tried. Whatever waited and was not taken still waits, with the
/// difference that it had or with the one that it makes now.
pub proof fn law_pick_gains_most<P: SubsetSelectionCost>(
    problem: P,
    selected: Seq<usize>,
    cost_now: P::Cost,
    round: usize,
    queue: Seq<Option<Candidate<P::Cost>>>,
)
    requires
        problem.cost_of(selected) == Ok::<P::Cost, ErrorView>(cost_now),
        queue.len() == problem.item_count() <= usize::MAX,
        is_queue_for(queue, selected),
        is_measured(problem, selected, round, queue),
        has_defined_gains(problem, selected),
    ensures
        pick(problem, selected, cost_now, round, queue) matches Ok(p) ==> {
            &&& p.item < queue.len() && !selected.contains(p.item as usize)
            &&& problem.cost_of(subset::with_item(selected, p.item as usize)) == Ok::<
                P::Cost,
                ErrorView,
            >(p.cost)
            &&& p.queue.len() == queue.len()
            &&& p.queue[p.item as int] is None
            &&& is_measured(problem, selected, round, p.queue)
            &&& forall|i: int|
                #![trigger p.queue[i]]
                0 <= i < queue.len() && i != p.item ==> {
                    &&& p.queue[i] is Some <==> queue[i] is Some
                    &&& p.queue[i] matches Some(candidate) ==> {
                        &&& float::at_most(candidate.delta, gain(problem, selected, p.item as usize))
                        &&& candidate.delta == queue[i]->0.delta || candidate.delta == gain(
                            problem,
                            selected,
                            i as usize,
                        )
                    }
                }
        },
    decreases stale(queue, round),
{
    lemma_top(queue, queue.len());
    law_top_is_greatest(queue, queue.len());
    if let Some(item) = top(queue, queue.len()) {
        let entry = queue[item as int]->0;
        let rest = queue.update(item as int, None);
        assert(queue[item as int] is Some);
        if entry.round == round {
            assert forall|i: int| #![trigger rest[i]] 0 <= i < rest.len() implies (rest[i] matches Some(
                candidate,
            ) ==> float::at_most(candidate.delta, entry.delta)) by {
                assert(i != item ==> rest[i] == queue[i]);
            }
        } else if let Ok(c) = problem.cost_of(subset::with_item(selected, item as usize)) {
            let delta = cost_now.spec_minus(c);
            assert(delta == gain(problem, selected, item as usize));
            lemma_top(rest, rest.len());
            assert forall|i: int| 0 <= i < rest.len() implies (#[trigger] rest[i] matches Some(
                candidate,
            ) ==> float::defined(candidate.delta)) by {
                assert(i != item ==> rest[i] == queue[i]);
            }
            law_top_is_greatest(rest, rest.len());
            let greatest = top_delta(rest);
            if float::order_of(delta, greatest) != Order::Less {
                assert forall|i: int| #![trigger rest[i]] 0 <= i < rest.len() implies (
                rest[i] matches Some(candidate) ==> float::at_most(candidate.delta, delta)) by {
                    if rest[i] is Some {
                        P::Cost::order_laws(rest[i]->0.delta, greatest, delta);
                        P::Cost::order_laws(greatest, delta, delta);
                    }
                }
            } else {
                let again = rest.update(item as int, Some(Candidate { delta, cost: c, round }));
                lemma_stale(queue, again, item as int, round);
                assert forall|i: int| 0 <= i < again.len() implies (#[trigger] again[i] is Some
                    <==> !selected.contains(i as usize)) by {
                    assert(i != item ==> again[i] == queue[i]);
                }
                law_pick_gains_most(problem, selected, cost_now, round, again);
                if let Ok(p) = pick(problem, selected, cost_now, round, again) {
                    assert forall|i: int|
                        #![trigger p.queue[i]]
                        0 <= i < queue.len() && i != p.item implies {
                        &&& p.queue[i] is Some <==> queue[i] is Some
                        &&& p.queue[i] matches Some(candidate) ==> candidate.delta
                            == queue[i]->0.delta || candidate.delta == gain(
                            problem,
                            selected,
                            i as usize,
                        )
                    } by {
                        assert(i != item ==> again[i] == queue[i]);
                    }
                }
            }
        }
    }
}

/// Whether no item that waits lowers the cost of the selected items more than it did when it was
/// last tried.
spec fn is_optimistic<P: SubsetSelectionCost>(
    problem: P,
    selected: Seq<usize>,
    queue: Seq<Option<Candidate<P::Cost>>>,
) -> bool {
    forall|i: int|
        0 <= i < queue.len() ==> (#[trigger] queue[i] matches Some(candidate) ==> float::at_most(
            gain(problem, selected, i as usize),
            candidate.delta,
        ))
}

/// Whether items can be taken from the queue one after the other.
spec fn is_under_way<P: SubsetSelectionCost>(
    problem: P,
    selected: Seq<usize>,
    cost_now: P::Cost,
    round: usize,
    queue: Seq<Option<Candidate<P::Cost>>>,
) -> bool {
    &&& subset::is_subset(selected, problem.item_count())
    &&& problem.cost_of(selected) == Ok::<P::Cost, ErrorView>(cost_now)
    &&& queue.len() == problem.item_count() <= usize::MAX
    &&& is_queue_for(queue, selected)
    &&& is_measured(problem, selected, round, queue)
    &&& is_optimistic(problem, selected, queue)
    &&& selected.len() == round + 2
}

/// A subset has no more items than there are.
proof fn lemma_subset_size(s: Seq<usize>, n: nat)
    requires
        subset::is_subset(s, n),
        n <= usize::MAX,
    ensures
        s.len() <= n,
{
    subset::law_complement_size(n, s);
}

proof fn lemma_next_under_way<P: SubsetSelectionCost>(
    problem: P,
    selected: Seq<usize>,
    cost_now: P::Cost,
    round: usize,
    queue: Seq<Option<Candidate<P::Cost>>>,
)
    requires
        has_diminishing_returns(problem),
        is_under_way(problem, selected, cost_now, round, queue),
    ensures
        has_defined_gains(problem, selected),
        pick(problem, selected, cost_now, round, queue) matches Ok(p) ==> round < usize::MAX
            && is_under_way(
            problem,
            subset::with_item(selected, p.item as usize),
            p.cost,
            (round + 1) as usize,
            p.queue,
        ),
{
    let n = problem.item_count();
    assert forall|x: usize| x < n && !selected.contains(x) && problem.cost_of(
        subset::with_item(selected, x),
    ) is Ok implies float::defined(#[trigger] gain(problem, selected, x)) by {
        let g = gain(problem, selected, x);
        P::Cost::order_laws(g, g, g);
    }
    law_pick_gains_most(problem, selected, cost_now, round, queue);
    if let Ok(p) = pick(problem, selected, cost_now, round, queue) {
        let item = p.item as usize;
        let next = subset::with_item(selected, item);
        subset::law_with_item(selected, item, n);
        lemma_subset_size(next, n);
        assert forall|i: int| 0 <= i < p.queue.len() implies (#[trigger] p.queue[i] is Some
            <==> !next.contains(i as usize)) by {
            assert(queue[i] is Some <==> !selected.contains(i as usize));
        }
        assert forall|i: int| 0 <= i < p.queue.len() implies (#[trigger] p.queue[i] matches Some(
            candidate,
        ) ==> float::at_most(gain(problem, next, i as usize), candidate.delta)) by {
            if p.queue[i] is Some {
                assert(queue[i] is Some);
                let (now, then, delta) = (
                    gain(problem, selected, i as usize),
                    gain(problem, next, i as usize),
                    p.queue[i]->0.delta,
                );
                assert(is_part(selected, next));
                P::Cost::order_laws(then, now, delta);
                P::Cost::order_laws(now, now, now);
            }
        }
    }
}

/// After taking some items, the next one that is taken lowers the cost at least as much as any other
/// would.
proof fn lemma_grown_takes_best<P: SubsetSelectionCost>(
    problem: P,
    selected: Seq<usize>,
    cost_now: P::Cost,
    round: usize,
    queue: Seq<Option<Candidate<P::Cost>>>,
    steps: nat,
    x: usize,
)
    requires
        has_diminishing_returns(problem),
        is_under_way(problem, selected, cost_now, round, queue),
        x < problem.item_count(),
    ensures
        grown(problem, selected, cost_now, round, queue, steps + 1) matches Ok(b) ==> {
            &&& grown(problem, selected, cost_now, round, queue, steps) matches Ok(a)
            &&& cost::is_priced(problem, a)
            &&& exists|item: usize| #[trigger]
                subset::with_item(a.indices, item) == b.indices && item < problem.item_count()
                    && !a.indices.contains(item)
            &&& cost::is_priced(problem, b)
            &&& !a.indices.contains(x) ==> float::at_most(
                gain(problem, a.indices, x),
                a.cost.spec_minus(b.cost),
            )
        },
    decreases steps,
{
    reveal_with_fuel(grown, 2);
    lemma_next_under_way(problem, selected, cost_now, round, queue);
    if let Ok(p) = pick(problem, selected, cost_now, round, queue) {
        let next = subset::with_item(selected, p.item as usize);
        if steps == 0 {
            law_pick_gains_most(problem, selected, cost_now, round, queue);
            assert(subset::with_item(selected, p.item as usize) == next);
            if !selected.contains(x) {
                let (mine, best) = (
                    gain(problem, selected, x),
                    gain(problem, selected, p.item as usize),
                );
                assert(is_part(selected, selected));
                if x != p.item {
                    assert(queue[x as int] is Some);
                    assert(p.queue[x as int] is Some);
                    let delta = p.queue[x as int]->0.delta;
                    P::Cost::order_laws(mine, delta, best);
                }
            }
        } else {
            lemma_grown_takes_best(
                problem,
                next,
                p.cost,
                (round + 1) as usize,
                p.queue,
                (steps - 1) as nat,
                x,
            );
        }
    }
}

/// The first queue holds by how much each of the items that are not selected lowers the cost.
proof fn lemma_first_queue<P: SubsetSelectionCost>(
    problem: P,
    selected: Seq<usize>,
    cost_now: P::Cost,
    upto: nat,
)
    requires
        has_diminishing_returns(problem),
        subset::is_subset(selected, problem.item_count()),
        problem.cost_of(selected) == Ok::<P::Cost, ErrorView>(cost_now),
        upto <= problem.item_count() <= usize::MAX,
    ensures
        first_queue(problem, selected, cost_now, upto) matches Ok(queue) ==> {
            &&& queue.len() == upto
            &&& is_queue_for(queue, selected)
            &&& is_measured(problem, selected, 0, queue)
            &&& is_optimistic(problem, selected, queue)
        },
    decreases upto,
{
    if upto > 0 {
        let item = (upto - 1) as usize;
        lemma_first_queue(problem, selected, cost_now, (upto - 1) as nat);
        if let Ok(queue) = first_queue(problem, selected, cost_now, upto) {
            let before = first_queue(problem, selected, cost_now, (upto - 1) as nat)->Ok_0;
            assert forall|i: int| 0 <= i < before.len() implies #[trigger] queue[i] == before[i] by {}
            if !selected.contains(item) {
                let g = gain(problem, selected, item);
                assert(is_part(selected, selected));
                assert(float::at_most(g, g));
                P::Cost::order_laws(g, g, g);
            }
        }
    }
}

/// Where no item lowers the cost more when more items are selected, growing is greedy: the subset
/// of the next size has one item more, and no item that is not in the smaller subset lowers its
/// cost by more than that one does.
pub proof fn law_greedy_takes_the_best_item<P: SubsetSelectionCost>(
    problem: P,
    size: nat,
    x: usize,
)
    requires
        has_diminishing_returns(problem),
        problem.item_count() <= usize::MAX,
        2 <= size,
        greedy_subset(problem, size + 1) is Ok,
        x < problem.item_count(),
    ensures
        greedy_subset(problem, size) matches Ok(a) && greedy_subset(problem, size + 1) matches Ok(b)
            && {
            &&& cost::is_priced(problem, a) && cost::is_priced(problem, b)
            &&& exists|item: usize| #[trigger]
                subset::with_item(a.indices, item) == b.indices && item < problem.item_count()
                    && !a.indices.contains(item)
            &&& !a.indices.contains(x) ==> float::at_most(
                gain(problem, a.indices, x),
                a.cost.spec_minus(b.cost),
            )
        },
{
    let pair = initial_pair(problem)->Ok_0;
    let c = problem.cost_of(pair)->Ok_0;
    let queue = first_queue(problem, pair, c, problem.item_count())->Ok_0;
    lemma_initial_pair_is_pair(problem);
    lemma_first_queue(problem, pair, c, problem.item_count());
    lemma_grown_takes_best(problem, pair, c, 0, queue, (size - 2) as nat, x);
}

/// Whether all of the lists are pairs of items below `scan`.
spec fn are_pairs(pairs: Seq<Seq<usize>>, scan: nat) -> bool {
    forall|i: int|
        0 <= i < pairs.len() ==> (#[trigger] pairs[i]).len() == 2 && subset::is_subset(
            pairs[i],
            scan,
        )
}

proof fn lemma_pairs(scan: nat, first: nat, second: nat)
    requires
        first < second,
        scan <= usize::MAX,
    ensures
        are_pairs(pairs_from(scan, first, second), scan),
    decreases scan - first, scan - second,
{
    let all = pairs_from(scan, first, second);
    if first < scan {
        if second >= scan {
            lemma_pairs(scan, first + 1, first + 2);
        } else {
            let rest = pairs_from(scan, first, second + 1);
            lemma_pairs(scan, first, second + 1);
            assert forall|i: int| 0 <= i < all.len() implies (#[trigger] all[i]).len() == 2
                && subset::is_subset(all[i], scan) by {
                if i > 0 {
                    assert(all[i] == rest[i - 1]);
                }
            }
        }
    }
}

/// The best of some subsets is one of them.
proof fn lemma_best_is_listed<P: SubsetSelectionCost>(
    problem: P,
    subsets: Seq<Seq<usize>>,
    best: Option<SubsetView<P::Cost>>,
)
    ensures
        best_of(problem, subsets, best) matches Ok(Some(r)) ==> subsets.contains(r.indices) || best
            == Some(r),
    decreases subsets.len(),
{
    if subsets.len() > 0 {
        if let Ok(c) = problem.cost_of(subsets[0]) {
            let first = SubsetView { indices: subsets[0], cost: c };
            let rest = subsets.drop_first();
            lemma_best_is_listed(problem, rest, Some(improved(best, first)));
            if let Ok(Some(r)) = best_of(problem, subsets, best) {
                assert(subsets.contains(subsets[0]));
                if rest.contains(r.indices) {
                    let i = choose|i: int| 0 <= i < rest.len() && rest[i] == r.indices;
                    assert(subsets[i + 1] == r.indices);
                }
            }
        }
    }
}

/// The pair from which a subset is grown is a pair of items.
proof fn lemma_initial_pair_is_pair<P: SubsetSelectionCost>(problem: P)
    ensures
        initial_pair(problem) matches Ok(pair) ==> pair.len() == 2 && subset::is_subset(
            pair,
            problem.item_count(),
        ),
{
    let scan = scan_limit(problem.item_count());
    lemma_pairs(scan, 0, 1);
    lemma_best_is_listed(problem, pairs_from(scan, 0, 1), None);
}

/// The subset of `target_size` items that is grown from the initial pair.
pub fn greedy<P: SubsetSelectionCost>(problem: &P, target_size: usize) -> (r: Result<
    Subset<P::Cost>,
    Error,
>)
    ensures
        error::outcome_view(r) == greedy_subset(*problem, target_size as nat),
        r matches Ok(s) ==> cost::is_priced(*problem, s@) && s.indices@.len() == if target_size < 2 {
            2
        } else {
            target_size
        },
        cost::is_total(*problem) && problem.item_count() >= 2 && target_size
            <= problem.item_count() ==> r is Ok,
{
    let mut selected = match bootstrap_initial_pair(problem) {
        Err(e) => {
            return Err(e);
        },
        Ok(pair) => pair,
    };
    let n = problem.n_items();
    let mut cost_now = match problem.cost(&selected) {
        Err(e) => {
            return Err(e);
        },
        Ok(c) => c,
    };
    if target_size == 2 {
        return Ok(Subset { indices: selected, cost: cost_now });
    }
    let mask = subset::selected_mask(n, &selected);
    let mut queue: Vec<Option<Candidate<P::Cost>>> = Vec::new();
    let mut item: usize = 0;
    while item < n
        invariant
            item <= n,
            n == problem.item_count(),
            subset::is_subset(selected@, problem.item_count()),
            mask@.len() == n,
            forall|i: int| 0 <= i < n ==> #[trigger] mask@[i] == selected@.contains(i as usize),
            queue@.len() == item,
            is_queue_for(queue@, selected@),
            is_up_to_date(*problem, queue@, selected@, 0),
            first_queue(*problem, selected@, cost_now, item as nat) == Ok::<
                Seq<Option<Candidate<P::Cost>>>,
                ErrorView,
            >(queue@),
            initial_pair(*problem) == Ok::<Seq<usize>, ErrorView>(selected@),
            problem.cost_of(selected@) == Ok::<P::Cost, ErrorView>(cost_now),
            target_size != 2,
        decreases n - item,
    {
        if mask[item] {
            queue.push(None);
        } else {
            match problem.cost_with_added(selected.as_slice(), item) {
                Err(e) => {
                    proof {
                        subset::law_with_item(selected@, item, problem.item_count());
                        lemma_first_queue_error(
                            *problem,
                            selected@,
                            cost_now,
                            (item + 1) as nat,
                            n as nat,
                            e@,
                        );
                    }
                    return Err(e);
                },
                Ok(c) => {
                    queue.push(Some(Candidate { delta: cost_now.minus(c), cost: c, round: 0 }));
                },
            }
        }
        item = item + 1;
    }
    let ghost steps = if target_size < 2 {
        0
    } else {
        target_size - 2
    };
    let ghost whole = grown(*problem, selected@, cost_now, 0, queue@, steps as nat);
    let mut round: usize = 0;
    while selected.len() < target_size
        invariant
            target_size != 2,
            selected@.len() == round + 2,
            round <= steps,
            steps == if target_size < 2 {
                0
            } else {
                target_size - 2
            },
            subset::is_subset(selected@, problem.item_count()),
            queue@.len() == problem.item_count(),
            is_queue_for(queue@, selected@),
            is_up_to_date(*problem, queue@, selected@, round),
            problem.cost_of(selected@) == Ok::<P::Cost, ErrorView>(cost_now),
            whole == greedy_subset(*problem, target_size as nat),
            whole == grown(
                *problem,
                selected@,
                cost_now,
                round,
                queue@,
                (steps - round) as nat,
            ),
        decreases target_size - selected@.len(),
    {
        match take_next(problem, &selected, cost_now, round, &mut queue) {
            Err(e) => {
                return Err(e);
            },
            Ok(accepted) => {
                proof {
                    subset::law_with_item(selected@, accepted.0, problem.item_count());
                }
                insert_sorted(&mut selected, accepted.0);
                round = round + 1;
                cost_now = accepted.1;
            },
        }
    }
    Ok(Subset { indices: selected, cost: cost_now })
}

/// The cost of the grown subset is a number if the costs that the problem gives are.
pub proof fn lemma_greedy_cost<P: SubsetSelectionCost>(problem: P, target_size: nat)
    requires
        cost::has_defined_costs(problem),
    ensures
        greedy_subset(problem, target_size) matches Ok(r) ==> float::defined(r.cost),
{
    if let Ok(pair) = initial_pair(problem) {
        if let Ok(c) = problem.cost_of(pair) {
            lemma_first_queue_costs(problem, pair, c, problem.item_count());
            if let Ok(queue) = first_queue(problem, pair, c, problem.item_count()) {
                lemma_grown_cost(
                    problem,
                    pair,
                    c,
                    0,
                    queue,
                    if target_size < 2 {
                        0
                    } else {
                        (target_size - 2) as nat
                    },
                );
            }
        }
    }
}

/// Whether all the costs with which items wait are numbers.
spec fn waits_with_defined_costs<C: Real>(queue: Seq<Option<Candidate<C>>>) -> bool {
    forall|i: int|
        0 <= i < queue.len() ==> (#[trigger] queue[i] matches Some(candidate) ==> float::defined(
            candidate.cost,
        ))
}

proof fn lemma_first_queue_costs<P: SubsetSelectionCost>(
    problem: P,
    selected: Seq<usize>,
    cost_now: P::Cost,
    upto: nat,
)
    requires
        cost::has_defined_costs(problem),
    ensures
        first_queue(problem, selected, cost_now, upto) matches Ok(queue)
            ==> waits_with_defined_costs(queue),
    decreases upto,
{
    if upto > 0 {
        lemma_first_queue_costs(problem, selected, cost_now, (upto - 1) as nat);
    }
}

proof fn lemma_pick_cost<P: SubsetSelectionCost>(
    problem: P,
    selected: Seq<usize>,
    cost_now: P::Cost,
    round: usize,
    queue: Seq<Option<Candidate<P::Cost>>>,
)
    requires
        cost::has_defined_costs(problem),
        waits_with_defined_costs(queue),
    ensures
        pick(problem, selected, cost_now, round, queue) matches Ok(p) ==> float::defined(p.cost)
            && waits_with_defined_costs(p.queue),
    decreases stale(queue, round),
{
    lemma_top(queue, queue.len());
    if let Some(item) = top(queue, queue.len()) {
        let entry = queue[item as int]->0;
        let rest = queue.update(item as int, None);
        if entry.round != round {
            if let Ok(c) = problem.cost_of(subset::with_item(selected, item as usize)) {
                let again = rest.update(
                    item as int,
                    Some(Candidate { delta: cost_now.spec_minus(c), cost: c, round }),
                );
                lemma_stale(queue, again, item as int, round);
                lemma_pick_cost(problem, selected, cost_now, round, again);
            }
        }
    }
}

proof fn lemma_grown_cost<P: SubsetSelectionCost>(
    problem: P,
    selected: Seq<usize>,
    cost_now: P::Cost,
    round: usize,
    queue: Seq<Option<Candidate<P::Cost>>>,
    steps: nat,
)
    requires
        cost::has_defined_costs(problem),
        waits_with_defined_costs(queue),
        float::defined(cost_now),
    ensures
        grown(problem, selected, cost_now, round, queue, steps) matches Ok(r) ==> float::defined(
            r.cost,
        ),
    decreases steps,
{
    if steps > 0 {
        lemma_pick_cost(problem, selected, cost_now, round, queue);
        if let Ok(p) = pick(problem, selected, cost_now, round, queue) {
            lemma_grown_cost(
                problem,
                subset::with_item(selected, p.item as usize),
                p.cost,
                (round + 1) as usize,
                p.queue,
                (steps - 1) as nat,
            );
        }
    }
}

/// An error in the queue for some of the items is an error in the queue for more of them.
proof fn lemma_first_queue_error<P: SubsetSelectionCost>(
    problem: P,
    selected: Seq<usize>,
    cost_now: P::Cost,
    upto: nat,
    n: nat,
    e: ErrorView,
)
    requires
        upto <= n,
        first_queue(problem, selected, cost_now, upto) == Err::<
            Seq<Option<Candidate<P::Cost>>>,
            ErrorView,
        >(e),
    ensures
        first_queue(problem, selected, cost_now, n) == Err::<
            Seq<Option<Candidate<P::Cost>>>,
            ErrorView,
        >(e),
    decreases n,
{
    if upto < n {
        lemma_first_queue_error(problem, selected, cost_now, upto, (n - 1) as nat, e);
    }
}

} // verus!
