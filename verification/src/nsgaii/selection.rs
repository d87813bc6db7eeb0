//! The choice of the individuals that survive into the next generation.

use crate::float::Real;
use crate::nsgaii::crowding;
use crate::nsgaii::individual;
use crate::nsgaii::individual::Individual;
use crate::nsgaii::sorting;
use crate::ordering;
use crate::ordering::Precedence;
use crate::random::RandomSource;
use vstd::prelude::*;

verus! {

/// The individuals among the first `upto` that have rank `r`, in ascending order.
pub open spec fn members<P, F>(population: Seq<Individual<P, F>>, r: nat, upto: int) -> Seq<usize>
    decreases upto,
{
    if upto <= 0 {
        Seq::empty()
    } else if population[upto - 1].rank == r {
        members(population, r, upto - 1).push((upto - 1) as usize)
    } else {
        members(population, r, upto - 1)
    }
}

/// The individuals that have rank `r`, in ascending order.
pub open spec fn front<P, F>(population: Seq<Individual<P, F>>, r: nat) -> Seq<usize> {
    members(population, r, population.len() as int)
}

/// Whether individual `i` is preferred to individual `j`: it has a lower rank, or the same rank and
/// a larger crowding distance.
pub open spec fn is_preferred<P, F: Real>(
    population: Seq<Individual<P, F>>,
    i: int,
    j: int,
) -> bool {
    ||| population[i].rank < population[j].rank
    ||| population[i].rank == population[j].rank && population[j].crowding_distance.spec_less(
        population[i].crowding_distance,
    )
}

/// Whether individuals `i` and `j` can meet in a tournament: nobody meets themselves unless they
/// are alone.
pub open spec fn is_pairing<P, F>(population: Seq<Individual<P, F>>, i: int, j: int) -> bool {
    &&& 0 <= i < population.len()
    &&& 0 <= j < population.len()
    &&& i != j || population.len() == 1
}

/// Whether individual `w` can win a tournament: against the first of two individuals the second
/// wins unless the first is preferred to it.
pub open spec fn is_tournament_winner<P, F: Real>(
    population: Seq<Individual<P, F>>,
    w: int,
) -> bool {
    exists|i: int, j: int| #[trigger]
        is_pairing(population, i, j) && w == if is_preferred(population, i, j) {
            i
        } else {
            j
        }
}

/// Whom individual `i` of `n` meets in a tournament, and the words that are left after the draw.
/// Whoever is drawn against themselves is drawn against somebody else, up to `patience` times, and
/// meets the next individual if all that was in vain.
pub open spec fn opponent<R: RandomSource>(
    words: Map<nat, u64>,
    n: usize,
    i: usize,
    patience: nat,
) -> (usize, Map<nat, u64>)
    decreases patience,
{
    let (j, rest) = R::index_from(words, n);
    if i != j || n <= 1 {
        (j, rest)
    } else if patience > 0 {
        opponent::<R>(rest, n, i, (patience - 1) as nat)
    } else if i + 1 < n {
        ((i + 1) as usize, rest)
    } else {
        (0, rest)
    }
}

/// Who wins the tournament that the words of a generator draw, and the words that are left after it.
pub open spec fn tournament<R: RandomSource, P, F: Real>(
    population: Seq<Individual<P, F>>,
    words: Map<nat, u64>,
) -> (usize, Map<nat, u64>) {
    let n = population.len() as usize;
    let (i, between) = R::index_from(words, n);
    let (j, rest) = opponent::<R>(between, n, i, u64::MAX as nat);
    (
        if is_preferred(population, i as int, j as int) {
            i
        } else {
            j
        },
        rest,
    )
}

/// Nobody meets themselves in a tournament unless they are alone.
pub proof fn law_opponent_is_somebody_else<R: RandomSource>(
    words: Map<nat, u64>,
    n: usize,
    i: usize,
    patience: nat,
)
    requires
        n > 1,
    ensures
        opponent::<R>(words, n, i, patience).0 != i,
    decreases patience,
{
    let (j, rest) = R::index_from(words, n);
    if i == j && patience > 0 {
        law_opponent_is_somebody_else::<R>(rest, n, i, (patience - 1) as nat);
    }
}

/// The winner of a tournament is one of the two that were drawn. The other is on no earlier front,
/// and not more distant if both are on the same front.
pub proof fn law_tournament_winner_is_not_worse<R: RandomSource, P, F: Real>(
    population: Seq<Individual<P, F>>,
    words: Map<nat, u64>,
)
    ensures
        ({
            let n = population.len() as usize;
            let (i, between) = R::index_from(words, n);
            let j = opponent::<R>(between, n, i, u64::MAX as nat).0;
            let w = tournament::<R, P, F>(population, words).0;
            let (winner, first, second) = (
                population[w as int],
                population[i as int],
                population[j as int],
            );
            &&& w == i || w == j
            &&& winner.rank <= first.rank && winner.rank <= second.rank
            &&& winner.rank == first.rank ==> !winner.crowding_distance.spec_less(
                first.crowding_distance,
            )
            &&& winner.rank == second.rank ==> !winner.crowding_distance.spec_less(
                second.crowding_distance,
            )
        }),
{
    let n = population.len() as usize;
    let (i, between) = R::index_from(words, n);
    let j = opponent::<R>(between, n, i, u64::MAX as nat).0;
    let (a, b) = (
        population[i as int].crowding_distance,
        population[j as int].crowding_distance,
    );
    F::order_laws(a, b, a);
    F::order_laws(b, a, b);
}

/// Which pairs of individuals are such that the first is the more distant one.
pub open spec fn by_distance<P, F: Real>(population: Seq<Individual<P, F>>) -> spec_fn(
    usize,
    usize,
) -> bool {
    |a: usize, b: usize|
        population[b as int].crowding_distance.spec_less(population[a as int].crowding_distance)
}

/// Who survives from the fronts below `r`, and the population after their selection. Fronts
/// survive whole as long as they fit into `size`. Of the front that does not fit, the most
/// distant individuals survive, and nobody after it does.
pub open spec fn survivors<P, F: Real>(
    population: Seq<Individual<P, F>>,
    size: nat,
    r: nat,
) -> (Seq<usize>, Seq<Individual<P, F>>)
    decreases r,
{
    if r == 0 {
        (Seq::empty(), population)
    } else {
        let (chosen, people) = survivors(population, size, (r - 1) as nat);
        let next = front(population, (r - 1) as nat);
        if chosen.len() >= size {
            (chosen, people)
        } else if chosen.len() + next.len() <= size {
            (chosen + next, people)
        } else {
            let crowded = crowding::crowded(people, next);
            (
                chosen + ordering::sorted(by_distance(crowded), next).take(size - chosen.len()),
                crowded,
            )
        }
    }
}

/// Whether front `r` is the one that fits into `size` only in part.
pub open spec fn is_split<P, F: Real>(
    population: Seq<Individual<P, F>>,
    size: nat,
    r: nat,
) -> bool {
    let chosen = survivors(population, size, r).0;
    chosen.len() < size && chosen.len() + front(population, r).len() > size
}

/// The largest rank among the first `upto` individuals, or zero.
pub open spec fn max_rank<P, F>(population: Seq<Individual<P, F>>, upto: int) -> nat
    decreases upto,
{
    if upto <= 0 {
        0
    } else {
        vstd::math::max(max_rank(population, upto - 1) as int, population[upto - 1].rank as int) as nat
    }
}

/// Orders individuals by decreasing crowding distance.
struct ByDistance<'a, P, F> {
    population: &'a Vec<Individual<P, F>>,
}

impl<'a, P, F: Real> Precedence<usize> for ByDistance<'a, P, F> {
    closed spec fn order(&self) -> spec_fn(usize, usize) -> bool {
        by_distance(self.population@)
    }

    closed spec fn covers(&self, a: usize) -> bool {
        a < self.population@.len()
    }

    fn precedes(&self, a: &usize, b: &usize) -> (r: bool) {
        self.population[*b].crowding_distance.less(self.population[*a].crowding_distance)
    }
}

/// A front refers to members of the population with the rank of the front, each once.
pub proof fn lemma_members<P, F>(population: Seq<Individual<P, F>>, r: nat, upto: int)
    requires
        0 <= upto <= population.len(),
        population.len() <= usize::MAX,
    ensures
        forall|u: int|
            0 <= u < members(population, r, upto).len() ==> (#[trigger] members(
                population,
                r,
                upto,
            )[u]) < upto && population[members(population, r, upto)[u] as int].rank == r,
        forall|u: int, v: int|
            0 <= u < v < members(population, r, upto).len() ==> members(population, r, upto)[u]
                < members(population, r, upto)[v],
        forall|i: int|
            0 <= i < upto && (#[trigger] population[i]).rank == r ==> members(
                population,
                r,
                upto,
            ).contains(i as usize),
        members(population, r, upto).len() <= upto,
    decreases upto,
{
    if upto > 0 {
        lemma_members(population, r, upto - 1);
        let shorter = members(population, r, upto - 1);
        let longer = members(population, r, upto);
        assert forall|i: int|
            0 <= i < upto && (#[trigger] population[i]).rank == r implies longer.contains(
            i as usize,
        ) by {
            if i == upto - 1 {
                assert(longer[shorter.len() as int] == i as usize);
            } else {
                let v = choose|v: int| 0 <= v < shorter.len() && shorter[v] == i as usize;
                assert(longer[v] == i as usize);
            }
        }
    }
}

/// Once the next generation is full, later fronts add nothing to it.
proof fn lemma_full<P, F: Real>(population: Seq<Individual<P, F>>, size: nat, r: nat, s: nat)
    requires
        r <= s,
        survivors(population, size, r).0.len() >= size,
    ensures
        survivors(population, size, s) == survivors(population, size, r),
    decreases s,
{
    if r < s {
        lemma_full(population, size, r, (s - 1) as nat);
    }
}

/// Divides a population into its fronts.
fn fronts_of<P, F>(population: &Vec<Individual<P, F>>) -> (r: Vec<Vec<usize>>)
    requires
        forall|i: int| 0 <= i < population@.len() ==> (#[trigger] population@[i]).rank < usize::MAX,
    ensures
        r@.len() == max_rank(population@, population@.len() as int) + 1,
        forall|k: int| 0 <= k < r@.len() ==> (#[trigger] r@[k])@ == front(population@, k as nat),
{
    let n: usize = population.len();
    let mut highest: usize = 0;
    let mut i: usize = 0;
    while i < n
        invariant
            i <= n,
            n == population@.len(),
            forall|i: int|
                0 <= i < population@.len() ==> (#[trigger] population@[i]).rank < usize::MAX,
            highest == max_rank(population@, i as int),
            highest < usize::MAX,
            forall|h: int| 0 <= h < i ==> (#[trigger] population@[h]).rank <= highest,
        decreases n - i,
    {
        if population[i].rank > highest {
            highest = population[i].rank;
        }
        i = i + 1;
    }
    let mut fronts: Vec<Vec<usize>> = Vec::new();
    while fronts.len() <= highest
        invariant
            fronts@.len() <= highest + 1,
            highest < usize::MAX,
            forall|k: int|
                0 <= k < fronts@.len() ==> (#[trigger] fronts@[k])@ == members(
                    population@,
                    k as nat,
                    0,
                ),
        decreases highest + 1 - fronts@.len(),
    {
        fronts.push(Vec::new());
    }
    let mut i: usize = 0;
    while i < n
        invariant
            i <= n,
            n == population@.len(),
            fronts@.len() == highest + 1,
            forall|h: int| 0 <= h < n ==> (#[trigger] population@[h]).rank <= highest,
            forall|k: int|
                0 <= k < fronts@.len() ==> (#[trigger] fronts@[k])@ == members(
                    population@,
                    k as nat,
                    i as int,
                ),
        decreases n - i,
    {
        let rank: usize = population[i].rank;
        fronts[rank].push(i);
        i = i + 1;
    }
    fronts
}

/// Whether a population can be divided into fronts and, where one of them has to be split, the
/// individuals on it have at least as many objectives as the first of them.
pub open spec fn is_selectable<P, F: Real>(
    population: Seq<Individual<P, F>>,
    size: nat,
) -> bool {
    let people = sorting::ranked(population);
    &&& forall|i: int| 0 <= i < people.len() ==> (#[trigger] people[i]).rank < usize::MAX
    &&& forall|k: nat| #[trigger]
        is_split(people, size, k) ==> crowding::is_front_of(people, front(people, k))
}

/// Whether `after` is the population with ranks and the crowding distances of the front that was
/// split, and `generation` consists of copies of the survivors.
pub open spec fn is_next_generation<P: View, F: Real>(
    population: Seq<Individual<P, F>>,
    size: nat,
    after: Seq<Individual<P, F>>,
    generation: Seq<Individual<P, F>>,
) -> bool {
    let people = sorting::ranked(population);
    let (chosen, crowded) = survivors(people, size, max_rank(people, people.len() as int) + 1);
    &&& after == crowded
    &&& generation.len() == chosen.len()
    &&& forall|k: int|
        0 <= k < chosen.len() ==> (#[trigger] generation[k])@ == crowded[chosen[k] as int]@
}

/// Select next generation using elitism
pub fn select<F: Real>(combined: &mut Vec<Individual<Vec<F>, F>>, size: usize) -> (r: Vec<
    Individual<Vec<F>, F>,
>)
    requires
        is_selectable(old(combined)@, size as nat),
    ensures
        is_next_generation(old(combined)@, size as nat, final(combined)@, r@),
{
    sorting::sort_into_fronts(combined);
    let ghost people = combined@;
    let fronts = fronts_of(combined);
    let mut next_gen: Vec<Individual<Vec<F>, F>> = Vec::new();
    let mut k: usize = 0;
    let ghost mut chosen: Seq<usize> = Seq::empty();
    proof {
        assert(people.len() == combined.len());
    }
    while k < fronts.len() && next_gen.len() < size
        invariant
            k <= fronts@.len(),
            people.len() <= usize::MAX,
            people.len() == combined@.len(),
            forall|i: int| 0 <= i < fronts@.len() ==> (#[trigger] fronts@[i])@ == front(
                people,
                i as nat,
            ),
            forall|k: nat| #[trigger]
                is_split(people, size as nat, k) ==> crowding::is_front_of(people, front(people, k)),
            next_gen@.len() < size ==> combined@ == people,
            (chosen, combined@) == survivors(people, size as nat, k as nat),
            next_gen@.len() == chosen.len(),
            next_gen@.len() <= size,
            forall|u: int| 0 <= u < chosen.len() ==> (#[trigger] chosen[u]) < people.len(),
            next_gen@.len() < size ==> forall|u: int|
                0 <= u < chosen.len() ==> people[#[trigger] chosen[u] as int].rank < k,
            forall|u: int|
                0 <= u < chosen.len() ==> (#[trigger] next_gen@[u])@ == combined@[chosen[u] as int]@,
        decreases fronts@.len() - k,
    {
        let front_k: &Vec<usize> = &fronts[k];
        let ghost next = front(people, k as nat);
        let ghost old_gen = next_gen@;
        let ghost old_chosen = chosen;
        proof {
            lemma_members(people, k as nat, people.len() as int);
        }
        if front_k.len() <= size - next_gen.len() {
            let mut u: usize = 0;
            while u < front_k.len()
                invariant
                    u <= next.len(),
                    next == front_k@,
                    combined@ == people,
                    forall|v: int| 0 <= v < next.len() ==> (#[trigger] next[v]) < people.len(),
                    old_gen.len() == old_chosen.len(),
                    next_gen@.len() == old_gen.len() + u,
                    forall|v: int|
                        0 <= v < old_gen.len() ==> (#[trigger] next_gen@[v]) == old_gen[v],
                    forall|v: int|
                        0 <= v < u ==> (#[trigger] next_gen@[old_gen.len() + v])@
                            == people[next[v] as int]@,
                decreases next.len() - u,
            {
                next_gen.push(combined[front_k[u]].duplicate());
                u = u + 1;
            }
            proof {
                chosen = old_chosen + next;
                assert forall|u: int| 0 <= u < chosen.len() implies (#[trigger] next_gen@[u])@
                    == combined@[chosen[u] as int]@ by {
                    if u < old_chosen.len() {
                    } else {
                        let v = u - old_gen.len();
                        assert(next_gen@[old_gen.len() + v]@ == people[next[v] as int]@);
                    }
                }
            }
        } else {
            proof {
                assert(is_split(people, size as nat, k as nat));
            }
            crowding::crowd(combined, front_k);
            let ghost crowded = combined@;
            let sorted_front = ordering::sort_by(
                &ByDistance { population: &*combined },
                individual::copy_values(front_k),
            );
            let ghost order = sorted_front@;
            let room: usize = size - next_gen.len();
            proof {
                ordering::law_sorted_is_permutation(by_distance(crowded), next);
                assert forall|v: int| 0 <= v < order.len() implies (#[trigger] order[v])
                    < people.len() by {
                    assert(order.contains(order[v]));
                }
            }
            let mut u: usize = 0;
            while u < room
                invariant
                    u <= room < order.len(),
                    order == sorted_front@,
                    combined@ == crowded,
                    crowded.len() == people.len(),
                    forall|v: int| 0 <= v < order.len() ==> (#[trigger] order[v]) < people.len(),
                    next_gen@.len() == old_gen.len() + u,
                    forall|v: int|
                        0 <= v < old_gen.len() ==> (#[trigger] next_gen@[v]) == old_gen[v],
                    forall|v: int|
                        0 <= v < u ==> (#[trigger] next_gen@[old_gen.len() + v])@
                            == crowded[order[v] as int]@,
                decreases room - u,
            {
                next_gen.push(combined[sorted_front[u]].duplicate());
                u = u + 1;
            }
            proof {
                chosen = old_chosen + order.take(room as int);
                assert forall|u: int| 0 <= u < chosen.len() implies (#[trigger] next_gen@[u])@
                    == combined@[chosen[u] as int]@ by {
                    if u < old_chosen.len() {
                        let i = old_chosen[u] as int;
                        crowding::law_crowding_elsewhere(
                            individual::objectives_of(people),
                            individual::objectives_of(people)[next[0] as int].len(),
                            next,
                            crowding::distances_of(people),
                            i,
                        );
                    } else {
                        let v = u - old_gen.len();
                        assert(next_gen@[old_gen.len() + v]@ == crowded[order[v] as int]@);
                    }
                }
            }
        }
        k = k + 1;
    }
    proof {
        let last = max_rank(people, people.len() as int) + 1;
        if next_gen@.len() >= size {
            lemma_full(people, size as nat, k as nat, last);
        }
    }
    next_gen
}

} // verus!
