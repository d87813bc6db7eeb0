//! Fast non-dominated sorting.

use crate::counting;
use crate::float::Real;
use crate::nsgaii::dominance;
use crate::nsgaii::individual;
use crate::nsgaii::individual::Individual;
use vstd::prelude::*;

verus! {

/// Check if individual a dominates individual b
pub fn dominates<F: Real>(a: &[F], b: &[F]) -> (r: bool)
    ensures
        r == dominance::dominating(a@, b@),
{
    let mut at_least_one_better = false;
    let mut k: usize = 0;
    while k < a.len() && k < b.len()
        invariant
            k <= a@.len(),
            k <= b@.len(),
            forall|l: int| #![trigger a@[l]] 0 <= l < k ==> !b@[l].spec_less(a@[l]),
            at_least_one_better == exists|l: int|
                #![trigger a@[l]]
                0 <= l < k && a@[l].spec_less(b@[l]),
        decreases a@.len() - k,
    {
        if b[k].less(a[k]) {
            return false;
        }
        if a[k].less(b[k]) {
            at_least_one_better = true;
        }
        k = k + 1;
    }
    at_least_one_better
}

/// Whether `after` is `before` with the number of its front as its rank, or `before` itself if it
/// is on no front.
pub open spec fn is_ranked<P, F>(
    before: Individual<P, F>,
    after: Individual<P, F>,
    front: Option<nat>,
) -> bool {
    &&& after == (Individual { rank: after.rank, ..before })
    &&& match front {
        Some(r) => after.rank == r,
        None => after.rank == before.rank,
    }
}

/// A population in which everyone on a front is ranked by it.
pub open spec fn ranked<P, F: Real>(population: Seq<Individual<P, F>>) -> Seq<Individual<P, F>> {
    Seq::new(
        population.len(),
        |j: int|
            match dominance::front_of(individual::objectives_of(population), j) {
                Some(r) => Individual { rank: r as usize, ..population[j] },
                None => population[j],
            },
    )
}

/// Ranks follow dominance, among objective vectors of the same length that hold numbers only: whoever
/// dominates another ranks before it, nobody dominates those of rank zero, and all others are
/// dominated by somebody of the rank before theirs. Nothing else changes.
pub proof fn law_ranks_follow_dominance<P, F: Real>(
    population: Seq<Individual<P, F>>,
    i: int,
    j: int,
)
    requires
        population.len() <= usize::MAX,
        dominance::well_defined(individual::objectives_of(population)),
        0 <= i < population.len(),
        0 <= j < population.len(),
    ensures
        ({
            let people = ranked(population);
            &&& people.len() == population.len()
            &&& people[j].objectives == population[j].objectives
            &&& people[j].position == population[j].position
            &&& people[j].crowding_distance == population[j].crowding_distance
            &&& dominance::dominating(population[i].objectives@, population[j].objectives@)
                ==> people[i].rank < people[j].rank
            &&& people[j].rank > 0 ==> exists|h: int|
                0 <= h < population.len() && #[trigger] people[h].rank == people[j].rank - 1
                    && dominance::dominating(
                    population[h].objectives@,
                    population[j].objectives@,
                )
        }),
{
    let objectives = individual::objectives_of(population);
    let people = ranked(population);
    assert(objectives[i] == population[i].objectives@);
    assert(objectives[j] == population[j].objectives@);
    dominance::law_everyone_on_a_front(objectives, i);
    dominance::law_everyone_on_a_front(objectives, j);
    let r = dominance::front_of(objectives, j)->0;
    if dominance::dominating(objectives[i], objectives[j]) {
        dominance::law_dominator_on_earlier_front(objectives, i, j, r);
    }
    if r > 0 {
        dominance::law_fronts_follow_each_other(objectives, r, j);
        let h = choose|h: int|
            0 <= h < objectives.len() && #[trigger] dominance::dominating(
                objectives[h],
                objectives[j],
            ) && dominance::front_of(objectives, h) == Some((r - 1) as nat);
        assert(people[h].rank == people[j].rank - 1);
        assert(objectives[h] == population[h].objectives@);
    }
}

/// How many individuals outside `done` dominate individual `j`.
spec fn remaining<F: Real>(objectives: Seq<Seq<F>>, done: Set<int>, j: int) -> nat {
    counting::count(
        objectives.len(),
        |h: int| dominance::dominating(objectives[h], objectives[j]) && !done.contains(h),
    )
}

/// The individuals on the first `k` fronts.
spec fn front_set<F: Real>(objectives: Seq<Seq<F>>, k: nat) -> Set<int> {
    Set::new(|j: int| 0 <= j < objectives.len() && dominance::settled(objectives, k, j))
}

/// How many individuals are not on the first `k` fronts.
spec fn unsettled<F: Real>(objectives: Seq<Seq<F>>, k: nat) -> nat {
    counting::count(objectives.len(), |j: int| !dominance::settled(objectives, k, j))
}

/// Whether `after` is `before`, ranked if it is on one of the fronts up to front `k`.
spec fn ranked_up_to<P, F: Real>(
    objectives: Seq<Seq<F>>,
    k: nat,
    j: int,
    before: Individual<P, F>,
    after: Individual<P, F>,
) -> bool {
    &&& after == (Individual { rank: after.rank, ..before })
    &&& if dominance::settled(objectives, k + 1, j) {
        dominance::on_front(objectives, after.rank as nat, j)
    } else {
        after.rank == before.rank
    }
}

/// Individual `j` is on one of the fronts up to front `k` exactly if nobody outside the earlier
/// fronts dominates it.
proof fn lemma_nothing_remains<F: Real>(objectives: Seq<Seq<F>>, k: nat, j: int)
    requires
        0 <= j < objectives.len(),
    ensures
        remaining(objectives, front_set(objectives, k), j) == 0 <==> dominance::settled(
            objectives,
            k + 1,
            j,
        ),
{
    let done = front_set(objectives, k);
    let p = |h: int| dominance::dominating(objectives[h], objectives[j]) && !done.contains(h);
    counting::lemma_count_zero(objectives.len(), p);
    if remaining(objectives, done, j) == 0 {
        assert forall|i: int|
            0 <= i < objectives.len() && #[trigger] dominance::dominating(
                objectives[i],
                objectives[j],
            ) implies dominance::settled(objectives, k, i) by {
            assert(!p(i));
        }
    }
}

/// A front with a member leaves fewer individuals unsettled.
proof fn lemma_front_progress<F: Real>(
    objectives: Seq<Seq<F>>,
    k: nat,
    j: int,
    front: Seq<usize>,
)
    requires
        front.len() > 0,
        j == front[0],
        lists(front, objectives.len(), |h: int| dominance::on_front(objectives, k, h)),
    ensures
        unsettled(objectives, k + 1) < unsettled(objectives, k),
{
    let p = |h: int| dominance::on_front(objectives, k, h);
    assert(p(j));
    let now = |h: int| !dominance::settled(objectives, k, h);
    let next = |h: int| !dominance::settled(objectives, k + 1, h);
    assert forall|h: int| 0 <= h < objectives.len() && #[trigger] next(h) implies now(h) by {
        if dominance::settled(objectives, k, h) {
            dominance::law_settled_monotone(objectives, k, k + 1, h);
        }
    }
    counting::lemma_count_less(objectives.len(), now, next, j);
}

/// After an empty front there are no further fronts.
proof fn lemma_no_more_fronts<F: Real>(objectives: Seq<Seq<F>>, k: nat, l: nat, j: int)
    requires
        forall|h: int|
            0 <= h < objectives.len() && dominance::settled(objectives, k + 1, h)
                ==> #[trigger] dominance::settled(objectives, k, h),
        0 <= j < objectives.len(),
        dominance::settled(objectives, l, j),
    ensures
        dominance::settled(objectives, k, j),
    decreases l,
{
    if l <= k {
        dominance::law_settled_monotone(objectives, l, k, j);
    } else {
        assert forall|i: int|
            0 <= i < objectives.len() && #[trigger] dominance::dominating(
                objectives[i],
                objectives[j],
            ) implies dominance::settled(objectives, k, i) by {
            lemma_no_more_fronts(objectives, k, (l - 1) as nat, i);
        }
    }
}

/// Whether `front` lists, without repetition, the individuals below `n` that satisfy `p`.
spec fn lists(front: Seq<usize>, n: nat, p: spec_fn(int) -> bool) -> bool {
    &&& forall|u: int| 0 <= u < front.len() ==> (#[trigger] front[u]) < n
    &&& forall|u: int, v: int| 0 <= u < v < front.len() ==> front[u] != front[v]
    &&& forall|j: int| 0 <= j < n ==> (front.contains(j as usize) <==> #[trigger] p(j))
}

/// Takes individual `i` from the dominators of those that it dominates, and adds those that have
/// no dominator left to the next front.
fn release<P, F: Real>(
    list: &Vec<usize>,
    domination_count: &mut Vec<usize>,
    population: &mut Vec<Individual<P, F>>,
    next_front: &mut Vec<usize>,
    next_rank: usize,
    Ghost(objectives): Ghost<Seq<Seq<F>>>,
    Ghost(done): Ghost<Set<int>>,
    Ghost(i): Ghost<int>,
    Ghost(base): Ghost<Seq<Individual<P, F>>>,
    Ghost(earlier): Ghost<spec_fn(int) -> bool>,
)
    requires
        0 <= i < objectives.len(),
        objectives.len() <= usize::MAX,
        !done.contains(i),
        is_dominated_list(objectives, i, objectives.len() as int, list@),
        old(domination_count)@.len() == objectives.len(),
        forall|j: int|
            0 <= j < objectives.len() ==> #[trigger] old(domination_count)@[j] == remaining(
                objectives,
                done,
                j,
            ),
        old(population)@.len() == objectives.len(),
        base.len() == objectives.len(),
        forall|j: int|
            0 <= j < objectives.len() && #[trigger] earlier(j) ==> old(domination_count)@[j] == 0,
        lists(
            old(next_front)@,
            objectives.len(),
            |j: int| old(domination_count)@[j] == 0 && !earlier(j),
        ),
        forall|j: int|
            0 <= j < objectives.len() ==> #[trigger] old(population)@[j] == (Individual {
                rank: if old(next_front)@.contains(j as usize) {
                    next_rank
                } else {
                    base[j].rank
                },
                ..base[j]
            }),
    ensures
        final(domination_count)@.len() == objectives.len(),
        forall|j: int|
            0 <= j < objectives.len() ==> #[trigger] final(domination_count)@[j] == remaining(
                objectives,
                done.insert(i),
                j,
            ),
        final(population)@.len() == objectives.len(),
        forall|j: int|
            0 <= j < objectives.len() && #[trigger] earlier(j) ==> final(domination_count)@[j] == 0,
        lists(
            final(next_front)@,
            objectives.len(),
            |j: int| final(domination_count)@[j] == 0 && !earlier(j),
        ),
        forall|j: int|
            0 <= j < objectives.len() ==> #[trigger] final(population)@[j] == (Individual {
                rank: if final(next_front)@.contains(j as usize) {
                    next_rank
                } else {
                    base[j].rank
                },
                ..base[j]
            }),
{
    let ghost n = objectives.len();
    let mut u: usize = 0;
    while u < list.len()
        invariant
            u <= list@.len(),
            n == objectives.len(),
            0 <= i < n,
            n <= usize::MAX,
            !done.contains(i),
            is_dominated_list(objectives, i, n as int, list@),
            domination_count@.len() == n,
            forall|j: int|
                0 <= j < n ==> #[trigger] domination_count@[j] == remaining(
                    objectives,
                    if list@.take(u as int).contains(j as usize) {
                        done.insert(i)
                    } else {
                        done
                    },
                    j,
                ),
            population@.len() == n,
            base.len() == n,
            forall|j: int| 0 <= j < n && #[trigger] earlier(j) ==> domination_count@[j] == 0,
            lists(next_front@, n, |j: int| domination_count@[j] == 0 && !earlier(j)),
            forall|j: int|
                0 <= j < n ==> #[trigger] population@[j] == (Individual {
                    rank: if next_front@.contains(j as usize) {
                        next_rank
                    } else {
                        base[j].rank
                    },
                    ..base[j]
                }),
        decreases list@.len() - u,
    {
        let j: usize = list[u];
        let ghost counts = domination_count@;
        let ghost front = next_front@;
        let ghost people = population@;
        proof {
            let p = |h: int|
                dominance::dominating(objectives[h], objectives[j as int]) && !done.contains(h);
            let q = |h: int|
                dominance::dominating(objectives[h], objectives[j as int]) && !done.insert(
                    i,
                ).contains(h);
            counting::lemma_count_remove(n, p, q, i);
        }
        let left: usize = domination_count[j] - 1;
        domination_count[j] = left;
        if left == 0 {
            population[j].rank = next_rank;
            next_front.push(j);
        }
        proof {
            let next = list@.take(u + 1);
            assert forall|h: int| 0 <= h < n implies (#[trigger] next.contains(h as usize) <==> h == j
                || list@.take(u as int).contains(h as usize)) by {
                if h == j {
                    assert(next[u as int] == j);
                }
            }
            assert(!front.contains(j)) by {
                let p = |h: int| counts[h] == 0 && !earlier(h);
                assert(!p(j as int));
            }
            let p0 = |h: int| counts[h] == 0 && !earlier(h);
            let p1 = |h: int| domination_count@[h] == 0 && !earlier(h);
            if left == 0 {
                assert forall|h: int| 0 <= h < n implies (next_front@.contains(h as usize)
                    <==> #[trigger] p1(h)) by {
                    assert(front.contains(h as usize) <==> p0(h));
                    if h == j {
                        assert(next_front@[front.len() as int] == j);
                    } else {
                        if front.contains(h as usize) {
                            let v = choose|v: int| 0 <= v < front.len() && front[v] == h as usize;
                            assert(next_front@[v] == h as usize);
                        }
                    }
                }
            } else {
                assert forall|h: int| 0 <= h < n implies (next_front@.contains(h as usize)
                    <==> #[trigger] p1(h)) by {
                    assert(front.contains(h as usize) <==> p0(h));
                }
            }
            assert forall|h: int| 0 <= h < n implies #[trigger] population@[h] == (Individual {
                rank: if next_front@.contains(h as usize) {
                    next_rank
                } else {
                    base[h].rank
                },
                ..base[h]
            }) by {
                assert(people[h] == (Individual {
                    rank: if front.contains(h as usize) {
                        next_rank
                    } else {
                        base[h].rank
                    },
                    ..base[h]
                }));
                assert(p0(h) <==> front.contains(h as usize));
                assert(p1(h) <==> next_front@.contains(h as usize));
            }
        }
        u = u + 1;
    }
    proof {
        assert(list@.take(u as int) =~= list@);
        assert forall|j: int| 0 <= j < n implies #[trigger] domination_count@[j] == remaining(
            objectives,
            done.insert(i),
            j,
        ) by {
            if !list@.contains(j as usize) {
                let p = |h: int|
                    dominance::dominating(objectives[h], objectives[j]) && !done.contains(h);
                let q = |h: int|
                    dominance::dominating(objectives[h], objectives[j]) && !done.insert(i).contains(
                        h,
                    );
                counting::lemma_count_equal(n, p, q);
            }
        }
    }
}

/// Which individuals are dominated by individual `i`, in ascending order.
spec fn is_dominated_list<F: Real>(objectives: Seq<Seq<F>>, i: int, upto: int, list: Seq<usize>) -> bool {
    &&& forall|u: int|
        0 <= u < list.len() ==> (#[trigger] list[u]) < upto && dominance::dominating(
            objectives[i],
            objectives[list[u] as int],
        )
    &&& forall|u: int, v: int| 0 <= u < v < list.len() ==> list[u] < list[v]
    &&& forall|j: int|
        0 <= j < upto && #[trigger] dominance::dominating(objectives[i], objectives[j])
            ==> list.contains(j as usize)
}

/// Fast non-dominated sorting
///
/// Gives every individual that is on a front the number of that front as its rank, and leaves
/// everything else unchanged.
pub fn sort_into_fronts<P, F: Real>(population: &mut Vec<Individual<P, F>>)
    ensures
        final(population)@ == ranked(old(population)@),
        forall|j: int|
            0 <= j < old(population)@.len() ==> is_ranked(
                old(population)@[j],
                #[trigger] final(population)@[j],
                dominance::front_of(individual::objectives_of(old(population)@), j),
            ),
{
    let n: usize = population.len();
    let ghost before = population@;
    let ghost objectives = individual::objectives_of(population@);
    let mut domination_count: Vec<usize> = Vec::new();
    let mut dominated_solutions: Vec<Vec<usize>> = Vec::new();
    let mut current_front: Vec<usize> = Vec::new();

    // Find domination relationships
    let mut i: usize = 0;
    while i < n
        invariant
            i <= n,
            n == before.len(),
            population@ == before,
            objectives == individual::objectives_of(before),
            domination_count@.len() == i,
            dominated_solutions@.len() == i,
            forall|h: int|
                0 <= h < i ==> #[trigger] domination_count@[h] == dominance::dominators(
                    objectives,
                    h,
                ),
            forall|h: int|
                0 <= h < i ==> is_dominated_list(
                    objectives,
                    h,
                    n as int,
                    #[trigger] dominated_solutions@[h]@,
                ),
        decreases n - i,
    {
        let mut dominator_count: usize = 0;
        let mut list: Vec<usize> = Vec::new();
        let mut j: usize = 0;
        let ghost p = |h: int| dominance::dominating(objectives[h], objectives[i as int]);
        while j < n
            invariant
                i < n,
                j <= n,
                n == before.len(),
                population@ == before,
                objectives == individual::objectives_of(before),
                p == (|h: int| dominance::dominating(objectives[h], objectives[i as int])),
                dominator_count <= j,
                dominator_count == counting::count(j as nat, p),
                is_dominated_list(objectives, i as int, j as int, list@),
            decreases n - j,
        {
            let ghost list_before = list@;
            if i != j {
                if dominates(&population[i].objectives, &population[j].objectives) {
                    list.push(j);
                } else if dominates(&population[j].objectives, &population[i].objectives) {
                    dominator_count = dominator_count + 1;
                }
            }
            assert forall|h: int|
                0 <= h < j + 1 && #[trigger] dominance::dominating(
                    objectives[i as int],
                    objectives[h],
                ) implies list@.contains(h as usize) by {
                if h < j {
                    let u = choose|u: int| 0 <= u < list_before.len() && list_before[u] == h as usize;
                    assert(list@[u] == h as usize);
                } else {
                    assert(list@[list@.len() - 1] == j);
                }
            }
            j = j + 1;
        }
        domination_count.push(dominator_count);
        dominated_solutions.push(list);
        i = i + 1;
    }

    // The first front
    let mut i: usize = 0;
    while i < n
        invariant
            i <= n,
            n == before.len(),
            population@.len() == n,
            domination_count@.len() == n,
            forall|u: int| 0 <= u < current_front@.len() ==> (#[trigger] current_front@[u]) < i,
            forall|u: int, v: int|
                0 <= u < v < current_front@.len() ==> current_front@[u] < current_front@[v],
            forall|j: int|
                0 <= j < i ==> (current_front@.contains(j as usize)
                    <==> #[trigger] domination_count@[j] == 0),
            forall|j: int|
                0 <= j < n ==> #[trigger] population@[j] == (Individual {
                    rank: if j < i && domination_count@[j] == 0 {
                        0
                    } else {
                        before[j].rank
                    },
                    ..before[j]
                }),
        decreases n - i,
    {
        let ghost front = current_front@;
        if domination_count[i] == 0 {
            population[i].rank = 0;
            current_front.push(i);
        }
        proof {
            assert forall|j: int| 0 <= j < i + 1 implies (current_front@.contains(j as usize)
                <==> #[trigger] domination_count@[j] == 0) by {
                if j < i {
                    if front.contains(j as usize) {
                        let v = choose|v: int| 0 <= v < front.len() && front[v] == j as usize;
                        assert(current_front@[v] == j as usize);
                    }
                } else if domination_count@[j] == 0 {
                    assert(current_front@[front.len() as int] == i);
                }
            }
        }
        i = i + 1;
    }

    let mut rank: usize = 0;
    proof {
        let done = front_set(objectives, 0);
        assert forall|j: int| 0 <= j < n implies #[trigger] domination_count@[j] == remaining(
            objectives,
            done,
            j,
        ) by {
            let p = |h: int| dominance::dominating(objectives[h], objectives[j]);
            let q = |h: int|
                dominance::dominating(objectives[h], objectives[j]) && !done.contains(h);
            counting::lemma_count_equal(n as nat, p, q);
        }
        let p = |j: int| dominance::on_front(objectives, 0, j);
        assert forall|j: int| 0 <= j < n implies (current_front@.contains(j as usize)
            <==> #[trigger] p(j)) by {
            lemma_nothing_remains(objectives, 0, j);
            assert(current_front@.contains(j as usize) <==> domination_count@[j] == 0);
        }
        counting::lemma_count_bound(n as nat, |j: int| !dominance::settled(objectives, 0, j));
        assert forall|j: int| 0 <= j < n implies ranked_up_to(
            objectives,
            0,
            j,
            before[j],
            #[trigger] population@[j],
        ) by {
            lemma_nothing_remains(objectives, 0, j);
        }
    }
    while !current_front.is_empty()
        invariant
            n == before.len(),
            objectives == individual::objectives_of(before),
            population@.len() == n,
            domination_count@.len() == n,
            dominated_solutions@.len() == n,
            forall|h: int|
                0 <= h < n ==> is_dominated_list(
                    objectives,
                    h,
                    n as int,
                    #[trigger] dominated_solutions@[h]@,
                ),
            forall|j: int|
                0 <= j < n ==> #[trigger] domination_count@[j] == remaining(
                    objectives,
                    front_set(objectives, rank as nat),
                    j,
                ),
            lists(
                current_front@,
                n as nat,
                |j: int| dominance::on_front(objectives, rank as nat, j),
            ),
            rank + unsettled(objectives, rank as nat) <= n,
            forall|j: int|
                0 <= j < n ==> ranked_up_to(
                    objectives,
                    rank as nat,
                    j,
                    before[j],
                    #[trigger] population@[j],
                ),
        decreases unsettled(objectives, rank as nat),
    {
        let ghost k = rank as nat;
        let ghost base = population@;
        let ghost front_p = |j: int| dominance::on_front(objectives, k, j);
        let ghost earlier = |j: int| dominance::settled(objectives, k + 1, j);
        proof {
            lemma_front_progress(objectives, k, current_front@[0] as int, current_front@);
        }
        let next_rank: usize = rank + 1;
        let mut next_front: Vec<usize> = Vec::new();
        let ghost mut done = front_set(objectives, k);
        proof {
            assert forall|j: int| 0 <= j < n implies (#[trigger] earlier(j)
                <==> domination_count@[j] == 0) by {
                lemma_nothing_remains(objectives, k, j);
            }
        }
        let mut t: usize = 0;
        while t < current_front.len()
            invariant
                t <= current_front@.len(),
                n == before.len(),
                n == objectives.len(),
                domination_count@.len() == n,
                population@.len() == n,
                base.len() == n,
                dominated_solutions@.len() == n,
                forall|h: int|
                    0 <= h < n ==> is_dominated_list(
                        objectives,
                        h,
                        n as int,
                        #[trigger] dominated_solutions@[h]@,
                    ),
                lists(current_front@, n as nat, front_p),
                front_p == (|j: int| dominance::on_front(objectives, k, j)),
                earlier == (|j: int| dominance::settled(objectives, k + 1, j)),
                forall|h: int|
                    0 <= h < n ==> (#[trigger] done.contains(h) <==> dominance::settled(
                        objectives,
                        k,
                        h,
                    ) || current_front@.take(t as int).contains(h as usize)),
                forall|j: int|
                    0 <= j < n ==> #[trigger] domination_count@[j] == remaining(
                        objectives,
                        done,
                        j,
                    ),
                forall|j: int| 0 <= j < n && #[trigger] earlier(j) ==> domination_count@[j] == 0,
                lists(
                    next_front@,
                    n as nat,
                    |j: int| domination_count@[j] == 0 && !earlier(j),
                ),
                forall|j: int|
                    0 <= j < n ==> #[trigger] population@[j] == (Individual {
                        rank: if next_front@.contains(j as usize) {
                            next_rank
                        } else {
                            base[j].rank
                        },
                        ..base[j]
                    }),
            decreases current_front@.len() - t,
        {
            let i: usize = current_front[t];
            proof {
                assert(front_p(i as int));
            }
            release(
                &dominated_solutions[i],
                &mut domination_count,
                population,
                &mut next_front,
                next_rank,
                Ghost(objectives),
                Ghost(done),
                Ghost(i as int),
                Ghost(base),
                Ghost(earlier),
            );
            proof {
                let before_t = current_front@.take(t as int);
                let after_t = current_front@.take(t + 1);
                assert forall|h: int| 0 <= h < n implies (#[trigger] done.insert(i as int).contains(h)
                    <==> dominance::settled(objectives, k, h) || after_t.contains(h as usize)) by {
                    if h == i {
                        assert(after_t[t as int] == i);
                    }
                    assert(done.contains(h) <==> dominance::settled(objectives, k, h)
                        || before_t.contains(h as usize));
                }
                done = done.insert(i as int);
            }
            t = t + 1;
        }
        proof {
            assert(current_front@.take(t as int) =~= current_front@);
            let next_set = front_set(objectives, k + 1);
            assert forall|h: int| 0 <= h < n implies (#[trigger] done.contains(h)
                <==> next_set.contains(h)) by {
                assert(front_p(h) <==> current_front@.contains(h as usize));
                if dominance::settled(objectives, k, h) {
                    dominance::law_settled_monotone(objectives, k, k + 1, h);
                }
            }
            assert forall|j: int| 0 <= j < n implies #[trigger] domination_count@[j] == remaining(
                objectives,
                next_set,
                j,
            ) by {
                let p = |h: int|
                    dominance::dominating(objectives[h], objectives[j]) && !done.contains(h);
                let q = |h: int|
                    dominance::dominating(objectives[h], objectives[j]) && !next_set.contains(h);
                counting::lemma_count_equal(n as nat, p, q);
            }
            let p = |j: int| dominance::on_front(objectives, k + 1, j);
            let q = |j: int| domination_count@[j] == 0 && !earlier(j);
            assert forall|j: int| 0 <= j < n implies (next_front@.contains(j as usize)
                <==> #[trigger] p(j)) by {
                lemma_nothing_remains(objectives, k + 1, j);
                assert(q(j) <==> next_front@.contains(j as usize));
            }
            assert forall|j: int| 0 <= j < n implies ranked_up_to(
                objectives,
                k + 1,
                j,
                before[j],
                #[trigger] population@[j],
            ) by {
                assert(p(j) <==> next_front@.contains(j as usize));
                if dominance::settled(objectives, k + 1, j) {
                    dominance::law_settled_monotone(objectives, k + 1, k + 2, j);
                }
            }
        }
        rank = next_rank;
        current_front = next_front;
    }
    proof {
        assert forall|j: int| 0 <= j < n implies is_ranked(
            before[j],
            #[trigger] population@[j],
            dominance::front_of(objectives, j),
        ) by {
            if dominance::settled(objectives, rank as nat + 1, j) {
                dominance::law_front_unique(objectives, population@[j].rank as nat, j);
            } else if dominance::front_of(objectives, j) is Some {
                let r = dominance::front_of(objectives, j).unwrap();
                let p = |h: int| dominance::on_front(objectives, rank as nat, h);
                assert forall|h: int| 0 <= h < n && dominance::settled(
                    objectives,
                    rank as nat + 1,
                    h,
                ) implies #[trigger] dominance::settled(objectives, rank as nat, h) by {
                    assert(!p(h));
                }
                lemma_no_more_fronts(objectives, rank as nat, r + 1, j);
                dominance::law_settled_monotone(objectives, rank as nat, rank as nat + 1, j);
            }
        }
    }
}

} // verus!
