//! One greedy start, seeded random restarts, and the best of them.

use crate::error;
use crate::error::{Error, ErrorView};
use crate::float;
use crate::float::{Order, Real};
use crate::greedysubsetselection::cost;
use crate::greedysubsetselection::cost::{
    compare_subsets, Subset, SubsetSelectionCost, SubsetView,
};
use crate::greedysubsetselection::growth;
use crate::greedysubsetselection::growth::greedy;
use crate::greedysubsetselection::local;
use crate::greedysubsetselection::local::local_search;
use crate::greedysubsetselection::subset;
use crate::random;
use vstd::prelude::*;

verus! {

/// Why no subset of `target_size` of the `n_items` items can be looked for with `n_starts` starts.
pub open spec fn target_fault(n_items: nat, target_size: nat, n_starts: nat) -> Option<Seq<char>> {
    if n_starts == 0 {
        Some("`GreedySubsetSelection`: n_starts must be at least 1."@)
    } else if target_size < 2 {
        Some("`GreedySubsetSelection`: target_size must be at least 2."@)
    } else if target_size > n_items {
        Some("`GreedySubsetSelection`: target_size must not exceed n_items."@)
    } else {
        None
    }
}

/// The greatest number of swaps: 100 for each selected item where none is configured.
pub open spec fn iteration_limit(target_size: usize, configured: usize) -> nat {
    if configured == usize::MAX {
        if 100 * target_size > usize::MAX {
            usize::MAX as nat
        } else {
            (100 * target_size) as nat
        }
    } else {
        configured as nat
    }
}

/// The items that a random start with `seed` begins with. Their cost is not known.
pub open spec fn random_items<C: Real>(n_items: nat, target_size: usize, seed: u64) -> SubsetView<
    C,
> {
    SubsetView {
        indices: subset::ascending(
            random::partially_shuffled(
                subset::first_items(n_items),
                random::seeded_stream(seed),
                target_size,
            ).take(target_size as int),
        ),
        cost: C::spec_infinity(),
    }
}

/// What a random start with `seed` finds.
pub open spec fn random_result<P: SubsetSelectionCost>(
    problem: P,
    target_size: usize,
    seed: u64,
    max_local_iterations: nat,
) -> Result<SubsetView<P::Cost>, ErrorView> {
    local::searched(
        problem,
        random_items(problem.item_count(), target_size, seed),
        max_local_iterations,
    )
}

/// What the greedy start finds.
pub open spec fn greedy_result<P: SubsetSelectionCost>(
    problem: P,
    target_size: usize,
    max_local_iterations: nat,
) -> Result<SubsetView<P::Cost>, ErrorView> {
    match growth::greedy_subset(problem, target_size as nat) {
        Err(e) => Err(e),
        Ok(s) => local::searched(problem, s, max_local_iterations),
    }
}

/// The seeds of the random starts.
pub open spec fn start_seeds_of(seed: u64, n_starts: nat) -> Seq<u64> {
    Seq::new(
        if n_starts == 0 {
            0
        } else {
            (n_starts - 1) as nat
        },
        |k: int| random::seeded_stream(seed)[k as nat],
    )
}

/// What the random starts find.
pub open spec fn random_results<P: SubsetSelectionCost>(
    problem: P,
    target_size: usize,
    n_starts: nat,
    seed: u64,
    max_local_iterations: nat,
) -> Seq<Result<SubsetView<P::Cost>, ErrorView>> {
    start_seeds_of(seed, n_starts).map_values(
        |start_seed: u64| random_result(problem, target_size, start_seed, max_local_iterations),
    )
}

/// The first of `best` and the candidates before which no other comes, or the first error.
pub open spec fn merged<C: Real>(
    best: SubsetView<C>,
    candidates: Seq<Result<SubsetView<C>, ErrorView>>,
) -> Result<SubsetView<C>, ErrorView>
    decreases candidates.len(),
{
    if candidates.len() == 0 {
        Ok(best)
    } else {
        match candidates[0] {
            Err(e) => Err(e),
            Ok(candidate) => merged(
                growth::improved(Some(best), candidate),
                candidates.drop_first(),
            ),
        }
    }
}

/// The subset that is selected.
pub open spec fn solution<P: SubsetSelectionCost>(
    problem: P,
    target_size: usize,
    n_starts: nat,
    seed: u64,
    max_local_iterations: usize,
) -> Result<SubsetView<P::Cost>, ErrorView> {
    let limit = iteration_limit(target_size, max_local_iterations);
    match target_fault(problem.item_count(), target_size as nat, n_starts) {
        Some(text) => Err(ErrorView::InvalidParameter(text)),
        None => match greedy_result(problem, target_size, limit) {
            Err(e) => Err(e),
            Ok(best) => merged(best, random_results(problem, target_size, n_starts, seed, limit)),
        },
    }
}

/// Whether `s` has `size` items of the problem and carries the cost that the problem gives them.
pub open spec fn is_solution<P: SubsetSelectionCost>(
    problem: P,
    s: SubsetView<P::Cost>,
    size: nat,
) -> bool {
    cost::is_priced(problem, s) && s.indices.len() == size
}

/// What is merged is `best` or one of the candidates.
proof fn lemma_merged_is_one<P: SubsetSelectionCost>(
    problem: P,
    best: SubsetView<P::Cost>,
    candidates: Seq<Result<SubsetView<P::Cost>, ErrorView>>,
    size: nat,
)
    requires
        is_solution(problem, best, size),
        forall|i: int|
            0 <= i < candidates.len() ==> (#[trigger] candidates[i] matches Ok(s) ==> is_solution(
                problem,
                s,
                size,
            )),
    ensures
        merged(best, candidates) matches Ok(s) ==> is_solution(problem, s, size),
    decreases candidates.len(),
{
    if candidates.len() > 0 {
        if let Ok(candidate) = candidates[0] {
            let rest = candidates.drop_first();
            lemma_merged_is_one(problem, growth::improved(Some(best), candidate), rest, size);
        }
    }
}

/// Without an error among the candidates there is none.
proof fn lemma_merged_succeeds<C: Real>(
    best: SubsetView<C>,
    candidates: Seq<Result<SubsetView<C>, ErrorView>>,
)
    requires
        forall|i: int| 0 <= i < candidates.len() ==> #[trigger] candidates[i] is Ok,
    ensures
        merged(best, candidates) is Ok,
    decreases candidates.len(),
{
    if candidates.len() > 0 {
        lemma_merged_succeeds(
            growth::improved(Some(best), candidates[0]->Ok_0),
            candidates.drop_first(),
        );
    }
}

/// Merging one half of the candidates after the other merges all of them.
proof fn lemma_merged_in_two<C: Real>(
    best: SubsetView<C>,
    candidates: Seq<Result<SubsetView<C>, ErrorView>>,
    more: Seq<Result<SubsetView<C>, ErrorView>>,
)
    ensures
        merged(best, candidates + more) == match merged(best, candidates) {
            Err(e) => Err(e),
            Ok(s) => merged(s, more),
        },
    decreases candidates.len(),
{
    if candidates.len() == 0 {
    } else if let Ok(candidate) = candidates[0] {
        assert((candidates + more).drop_first() =~= candidates.drop_first() + more);
        lemma_merged_in_two(
            growth::improved(Some(best), candidate),
            candidates.drop_first(),
            more,
        );
    }
}

/// What is merged is one of `best` and the candidates, and none of them comes before it, where
/// their costs are numbers.
pub proof fn law_merged_is_best<C: Real>(
    best: SubsetView<C>,
    candidates: Seq<Result<SubsetView<C>, ErrorView>>,
)
    requires
        float::defined(best.cost),
        forall|i: int|
            0 <= i < candidates.len() ==> (#[trigger] candidates[i] matches Ok(s)
                ==> float::defined(s.cost)),
    ensures
        merged(best, candidates) matches Ok(r) ==> {
            &&& r == best || candidates.contains(Ok(r))
            &&& float::defined(r.cost)
            &&& !cost::is_better(best, r)
            &&& forall|i: int|
                0 <= i < candidates.len() ==> (#[trigger] candidates[i] matches Ok(s)
                    && !cost::is_better(s, r))
        },
    decreases candidates.len(),
{
    if candidates.len() == 0 {
        C::order_laws(best.cost, best.cost, best.cost);
        cost::lemma_item_order_equal(best.indices, best.indices);
    } else if let Ok(candidate) = candidates[0] {
        let next = growth::improved(Some(best), candidate);
        let rest = candidates.drop_first();
        law_merged_is_best(next, rest);
        if let Ok(r) = merged(best, candidates) {
            C::order_laws(next.cost, next.cost, next.cost);
            cost::lemma_item_order_equal(candidate.indices, candidate.indices);
            cost::lemma_item_order_equal(best.indices, best.indices);
            cost::law_subset_order_reverses(candidate, best);
            cost::law_subset_order_transitive(best, next, r);
            cost::law_subset_order_transitive(candidate, next, r);
            assert forall|i: int| 0 <= i < candidates.len() implies (#[trigger] candidates[i] matches Ok(
                s,
            ) && !cost::is_better(s, r)) by {
                if i > 0 {
                    assert(rest[i - 1] == candidates[i]);
                }
            }
        }
    }
}

/// The subset that is selected is not worse than what the greedy start finds or what any of the
/// random starts finds.
pub proof fn law_solution_is_best_start<P: SubsetSelectionCost>(
    problem: P,
    target_size: usize,
    n_starts: nat,
    seed: u64,
    max_local_iterations: usize,
)
    requires
        cost::has_defined_costs(problem),
    ensures
        solution(problem, target_size, n_starts, seed, max_local_iterations) matches Ok(r) ==> {
            let limit = iteration_limit(target_size, max_local_iterations);
            let starts = random_results(problem, target_size, n_starts, seed, limit);
            &&& float::defined(r.cost)
            &&& greedy_result(problem, target_size, limit) matches Ok(s) && !cost::is_better(s, r)
            &&& forall|i: int|
                0 <= i < starts.len() ==> (#[trigger] starts[i] matches Ok(s) && !cost::is_better(
                    s,
                    r,
                ))
        },
{
    if let Ok(r) = solution(problem, target_size, n_starts, seed, max_local_iterations) {
        let limit = iteration_limit(target_size, max_local_iterations);
        let starts = random_results(problem, target_size, n_starts, seed, limit);
        growth::lemma_greedy_cost(problem, target_size as nat);
        if let Ok(grown) = growth::greedy_subset(problem, target_size as nat) {
            local::lemma_searched_cost(problem, grown, limit);
        }
        assert forall|i: int| 0 <= i < starts.len() implies (#[trigger] starts[i] matches Ok(s)
            ==> float::defined(s.cost)) by {
            let start_seed = start_seeds_of(seed, n_starts)[i];
            local::lemma_searched_cost(
                problem,
                random_items(problem.item_count(), target_size, start_seed),
                limit,
            );
        }
        law_merged_is_best(greedy_result(problem, target_size, limit)->Ok_0, starts);
    }
}

/// Every random start begins with other words: start `k` is seeded by word `k` of the generator that
/// `seed` gives, and selects the items that its own generator shuffles to the front.
pub proof fn law_random_starts_have_their_own_seeds<P: SubsetSelectionCost>(
    problem: P,
    target_size: usize,
    n_starts: nat,
    seed: u64,
    limit: nat,
    k: int,
)
    requires
        0 <= k < n_starts - 1,
    ensures
        ({
            let own = random::seeded_stream(seed)[k as nat];
            let starts = random_results(problem, target_size, n_starts, seed, limit);
            let shuffled = random::partially_shuffled(
                subset::first_items(problem.item_count()),
                random::seeded_stream(own),
                target_size,
            );
            let items = random_items::<P::Cost>(problem.item_count(), target_size, own).indices;
            &&& starts.len() == n_starts - 1
            &&& starts[k] == local::searched(
                problem,
                random_items(problem.item_count(), target_size, own),
                limit,
            )
            &&& target_size <= shuffled.len() && shuffled.no_duplicates() ==> {
                &&& subset::is_ascending(items) && items.len() == target_size
                &&& forall|x: usize| #[trigger]
                    items.contains(x) <==> exists|i: int|
                        0 <= i < target_size && #[trigger] shuffled[i] == x
            }
        }),
{
    let own = random::seeded_stream(seed)[k as nat];
    let shuffled = random::partially_shuffled(
        subset::first_items(problem.item_count()),
        random::seeded_stream(own),
        target_size,
    );
    let front = shuffled.take(target_size as int);
    if target_size <= shuffled.len() && shuffled.no_duplicates() {
        subset::law_ascending(front);
        let items = random_items::<P::Cost>(problem.item_count(), target_size, own).indices;
        assert forall|x: usize| #[trigger] items.contains(x) <==> exists|i: int|
            0 <= i < target_size && #[trigger] shuffled[i] == x by {
            if front.contains(x) {
                let i = choose|i: int| 0 <= i < front.len() && front[i] == x;
                assert(shuffled[i] == x);
            }
            if exists|i: int| 0 <= i < target_size && #[trigger] shuffled[i] == x {
                let i = choose|i: int| 0 <= i < target_size && #[trigger] shuffled[i] == x;
                assert(front[i] == x);
            }
        }
    }
}

/// The number of swaps is limited to what is configured, and to 100 for each selected item where
/// nothing is.
pub proof fn law_swaps_are_limited(target_size: usize, configured: usize)
    ensures
        configured != usize::MAX ==> iteration_limit(target_size, configured) == configured,
        100 * target_size <= usize::MAX ==> iteration_limit(target_size, usize::MAX) == 100
            * target_size,
        100 * target_size > usize::MAX ==> iteration_limit(target_size, usize::MAX) == usize::MAX,
{
}

/// More starts never give a worse subset.
pub proof fn law_more_starts_never_worse<P: SubsetSelectionCost>(
    problem: P,
    target_size: usize,
    n_starts: nat,
    more_starts: nat,
    seed: u64,
    max_local_iterations: usize,
)
    requires
        cost::has_defined_costs(problem),
        n_starts <= more_starts,
    ensures
        (solution(problem, target_size, n_starts, seed, max_local_iterations), solution(
            problem,
            target_size,
            more_starts,
            seed,
            max_local_iterations,
        )) matches (Ok(few), Ok(more)) ==> !cost::is_better(few, more),
{
    let few = solution(problem, target_size, n_starts, seed, max_local_iterations);
    let more = solution(problem, target_size, more_starts, seed, max_local_iterations);
    if few is Ok && more is Ok {
        let limit = iteration_limit(target_size, max_local_iterations);
        let best = greedy_result(problem, target_size, limit)->Ok_0;
        let all = random_results(problem, target_size, more_starts, seed, limit);
        let first = random_results(problem, target_size, n_starts, seed, limit);
        let last = all.skip(first.len() as int);
        assert(all =~= first + last);
        lemma_merged_in_two(best, first, last);
        law_solution_is_best_start(problem, target_size, n_starts, seed, max_local_iterations);
        assert forall|i: int| 0 <= i < last.len() implies (#[trigger] last[i] matches Ok(s)
            ==> float::defined(s.cost)) by {
            let start_seed = start_seeds_of(seed, more_starts)[i + first.len()];
            local::lemma_searched_cost(
                problem,
                random_items(problem.item_count(), target_size, start_seed),
                limit,
            );
        }
        law_merged_is_best(few->Ok_0, last);
    }
}

/// Refuses numbers of items, target sizes and numbers of starts that do not fit together.
pub fn validate_target(n_items: usize, target_size: usize, n_starts: usize) -> (r: Result<
    (),
    Error,
>)
    ensures
        error::outcome(r) == match target_fault(
            n_items as nat,
            target_size as nat,
            n_starts as nat,
        ) {
            Some(text) => Err(ErrorView::InvalidParameter(text)),
            None => Ok(()),
        },
{
    if n_starts == 0 {
        return Err(
            Error::invalid_parameter("`GreedySubsetSelection`: n_starts must be at least 1."),
        );
    }
    if target_size < 2 {
        return Err(
            Error::invalid_parameter("`GreedySubsetSelection`: target_size must be at least 2."),
        );
    }
    if target_size > n_items {
        return Err(
            Error::invalid_parameter(
                "`GreedySubsetSelection`: target_size must not exceed n_items.",
            ),
        );
    }
    Ok(())
}

/// The greatest number of swaps: 100 for each selected item where none is configured.
pub fn local_iteration_limit(target_size: usize, configured: usize) -> (r: usize)
    ensures
        r == iteration_limit(target_size, configured),
{
    if configured == usize::MAX {
        match target_size.checked_mul(100) {
            Some(limit) => limit,
            None => usize::MAX,
        }
    } else {
        configured
    }
}

/// Random items of which the cost is not known.
pub fn random_subset<C: Real>(n_items: usize, target_size: usize, seed: u64) -> (r: Subset<C>)
    requires
        target_size <= n_items,
    ensures
        r@ == random_items::<C>(n_items as nat, target_size, seed),
        subset::is_subset(r.indices@, n_items as nat),
        r.indices@.len() == target_size,
{
    let mut items: Vec<usize> = Vec::new();
    let mut k: usize = 0;
    while k < n_items
        invariant
            k <= n_items,
            items@ == subset::first_items(k as nat),
        decreases n_items - k,
    {
        items.push(k);
        k = k + 1;
    }
    let mut rng = random::seeded(seed);
    random::partial_shuffle(&mut items, &mut rng, target_size);
    let ghost shuffled = items@;
    proof {
        lemma_shuffled_items(n_items as nat, shuffled, target_size);
    }
    items.truncate(target_size);
    let indices = subset::sort(&items);
    Subset { indices, cost: C::infinity() }
}

/// The first items of a shuffled sequence, sorted, are as many items of the problem.
proof fn lemma_shuffled_items(n: nat, shuffled: Seq<usize>, target_size: usize)
    requires
        target_size <= n <= usize::MAX,
        shuffled.to_multiset() == subset::first_items(n).to_multiset(),
    ensures
        shuffled.len() == n,
        shuffled.take(target_size as int).no_duplicates(),
        subset::is_subset(subset::ascending(shuffled.take(target_size as int)), n),
        subset::ascending(shuffled.take(target_size as int)).len() == target_size,
{
    broadcast use vstd::seq_lib::group_to_multiset_ensures;

    let items = subset::first_items(n);
    items.lemma_multiset_has_no_duplicates();
    assert(shuffled.len() == shuffled.to_multiset().len());
    shuffled.lemma_multiset_has_no_duplicates_conv();
    let taken = shuffled.take(target_size as int);
    subset::law_ascending(taken);
    let r = subset::ascending(taken);
    assert forall|i: int| 0 <= i < r.len() implies #[trigger] r[i] < n by {
        assert(r.contains(r[i]));
        assert(items.to_multiset().contains(r[i]));
    }
}

/// Local search from random items.
pub fn random_start<P: SubsetSelectionCost>(
    problem: &P,
    target_size: usize,
    seed: u64,
    max_local_iterations: usize,
) -> (r: Result<Subset<P::Cost>, Error>)
    requires
        target_size <= problem.item_count(),
    ensures
        error::outcome_view(r) == random_result(
            *problem,
            target_size,
            seed,
            max_local_iterations as nat,
        ),
        r matches Ok(s) ==> is_solution(*problem, s@, target_size as nat),
        cost::is_total(*problem) ==> r is Ok,
{
    let random = random_subset::<P::Cost>(problem.n_items(), target_size, seed);
    proof {
        P::Cost::order_laws(random.cost, random.cost, random.cost);
    }
    local_search(problem, random, max_local_iterations)
}

/// The seeds of the random starts.
pub fn start_seeds(seed: u64, n_starts: usize) -> (r: Vec<u64>)
    ensures
        r@ == start_seeds_of(seed, n_starts as nat),
{
    let mut rng = random::seeded(seed);
    let mut r: Vec<u64> = Vec::new();
    let mut k: usize = 1;
    while k < n_starts
        invariant
            1 <= k,
            k <= n_starts || (n_starts == 0 && k == 1),
            r@.len() == k - 1,
            forall|i: int| 0 <= i < k - 1 ==> #[trigger] r@[i] == random::seeded_stream(seed)[i as nat],
            forall|i: nat|
                #[trigger] random::upcoming(rng)[i] == random::seeded_stream(seed)[(i + k - 1) as nat],
        decreases n_starts - k,
    {
        r.push(random::next_word(&mut rng));
        k = k + 1;
    }
    r
}

/// The results of random starts.
pub open spec fn views<C>(results: Seq<Result<Subset<C>, Error>>) -> Seq<
    Result<SubsetView<C>, ErrorView>,
> {
    results.map_values(|r: Result<Subset<C>, Error>| error::outcome_view(r))
}

/// The first of `best` and the candidates before which no other comes, or the first error.
#[verifier::loop_isolation(false)]
pub fn merge<C: Real>(best: Subset<C>, candidates: Vec<Result<Subset<C>, Error>>) -> (r: Result<
    Subset<C>,
    Error,
>)
    ensures
        error::outcome_view(r) == merged(best@, views(candidates@)),
{
    let ghost all = views(candidates@);
    let ghost whole = merged(best@, all);
    let mut best = best;
    assert(all.skip(0) =~= all);
    for candidate in it: candidates
        invariant
            all == views(it.seq()),
            whole == merged(best@, all.skip(it.index())),
    {
        proof {
            let rest = all.skip(it.index());
            assert(rest.drop_first() =~= all.skip(it.index() + 1));
        }
        match candidate {
            Err(e) => {
                return Err(e);
            },
            Ok(candidate) => {
                if compare_subsets(&candidate, &best) == Order::Less {
                    best = candidate;
                }
            },
        }
    }
    Ok(best)
}

/// Run greedy subset selection for one fixed target size.
pub fn solve<P: SubsetSelectionCost>(
    problem: &P,
    target_size: usize,
    n_starts: usize,
    seed: u64,
    max_local_iterations: usize,
) -> (r: Result<Subset<P::Cost>, Error>)
    ensures
        error::outcome_view(r) == solution(
            *problem,
            target_size,
            n_starts as nat,
            seed,
            max_local_iterations,
        ),
        r matches Ok(s) ==> is_solution(*problem, s@, target_size as nat),
        cost::is_total(*problem) && n_starts > 0 && 2 <= target_size <= problem.item_count() ==> r is Ok,
{
    match validate_target(problem.n_items(), target_size, n_starts) {
        Err(e) => {
            return Err(e);
        },
        Ok(_) => {},
    }
    let limit: usize = local_iteration_limit(target_size, max_local_iterations);
    let grown = match greedy(problem, target_size) {
        Err(e) => {
            return Err(e);
        },
        Ok(s) => s,
    };
    let best = match local_search(problem, grown, limit) {
        Err(e) => {
            return Err(e);
        },
        Ok(s) => s,
    };
    let seeds = start_seeds(seed, n_starts);
    let mut candidates: Vec<Result<Subset<P::Cost>, Error>> = Vec::new();
    let mut k: usize = 0;
    while k < seeds.len()
        invariant
            k <= seeds@.len(),
            target_size <= problem.item_count(),
            candidates@.len() == k,
            cost::is_total(*problem) ==> forall|i: int|
                0 <= i < k ==> #[trigger] candidates@[i] is Ok,
            forall|i: int|
                0 <= i < k ==> error::outcome_view(#[trigger] candidates@[i]) == random_result(
                    *problem,
                    target_size,
                    seeds@[i],
                    limit as nat,
                ),
            forall|i: int|
                0 <= i < k ==> (#[trigger] candidates@[i] matches Ok(s) ==> is_solution(
                    *problem,
                    s@,
                    target_size as nat,
                )),
        decreases seeds@.len() - k,
    {
        candidates.push(random_start(problem, target_size, seeds[k], limit));
        k = k + 1;
    }
    assert(views(candidates@) =~= random_results(
        *problem,
        target_size,
        n_starts as nat,
        seed,
        limit as nat,
    ));
    proof {
        lemma_merged_is_one(*problem, best@, views(candidates@), target_size as nat);
        if cost::is_total(*problem) {
            lemma_merged_succeeds(best@, views(candidates@));
        }
    }
    merge(best, candidates)
}

} // verus!
