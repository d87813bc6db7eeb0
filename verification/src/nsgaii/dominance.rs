//! Pareto dominance and the fronts that it divides a population into.

use crate::counting;
use crate::float;
use crate::float::Real;
use vstd::prelude::*;

verus! {

/// Whether the objectives `a` dominate the objectives `b`: no component of `a` is greater and at
/// least one is less. Components beyond the shorter of the two are not considered.
pub open spec fn dominating<F: Real>(a: Seq<F>, b: Seq<F>) -> bool {
    &&& forall|k: int| #![trigger a[k]] 0 <= k < a.len() && k < b.len() ==> !b[k].spec_less(a[k])
    &&& exists|k: int| #![trigger a[k]] 0 <= k < a.len() && k < b.len() && a[k].spec_less(b[k])
}

/// Whether individual `j` is on one of the first `k` fronts. Each front holds the individuals
/// that are dominated only by individuals on earlier fronts.
pub open spec fn settled<F: Real>(objectives: Seq<Seq<F>>, k: nat, j: int) -> bool
    decreases k,
{
    if k == 0 {
        false
    } else {
        forall|i: int|
            0 <= i < objectives.len() && #[trigger] dominating(objectives[i], objectives[j])
                ==> settled(objectives, (k - 1) as nat, i)
    }
}

/// Whether individual `j` is on front `r`.
pub open spec fn on_front<F: Real>(objectives: Seq<Seq<F>>, r: nat, j: int) -> bool {
    settled(objectives, r + 1, j) && !settled(objectives, r, j)
}

/// The front that individual `j` is on. Individuals that dominate each other in a circle, and
/// those that they dominate, are on none.
pub open spec fn front_of<F: Real>(objectives: Seq<Seq<F>>, j: int) -> Option<nat> {
    if exists|r: nat| on_front(objectives, r, j) {
        Some(choose|r: nat| on_front(objectives, r, j))
    } else {
        None
    }
}

/// Whether all objective vectors have the same length and hold numbers only.
pub open spec fn well_defined<F: Real>(objectives: Seq<Seq<F>>) -> bool {
    &&& forall|i: int, j: int|
        0 <= i < objectives.len() && 0 <= j < objectives.len() ==> (#[trigger] objectives[i]).len()
            == (#[trigger] objectives[j]).len()
    &&& forall|i: int, m: int|
        0 <= i < objectives.len() && 0 <= m < objectives[i].len()
            ==> float::defined(#[trigger] objectives[i][m])
}

/// No two objective vectors dominate each other, and none dominates itself.
pub proof fn law_dominance_asymmetric<F: Real>(a: Seq<F>, b: Seq<F>)
    ensures
        dominating(a, b) ==> !dominating(b, a),
        !dominating(a, a),
{
}

/// Objectives that hold numbers only dominate others exactly if they are at most the others in every
/// component and less in one.
pub proof fn law_dominance_is_better_somewhere<F: Real>(a: Seq<F>, b: Seq<F>)
    requires
        a.len() == b.len(),
        forall|k: int| 0 <= k < a.len() ==> float::defined(#[trigger] a[k]),
        forall|k: int| 0 <= k < b.len() ==> float::defined(#[trigger] b[k]),
    ensures
        dominating(a, b) <==> (forall|k: int|
            #![trigger a[k]]
            0 <= k < a.len() ==> float::at_most(a[k], b[k])) && exists|k: int|
            #![trigger a[k]]
            0 <= k < a.len() && a[k].spec_less(b[k]),
{
    assert forall|k: int| #![trigger a[k]] 0 <= k < a.len() implies (float::at_most(a[k], b[k])
        <==> !b[k].spec_less(a[k])) by {
        assert(float::defined(b[k]));
        F::order_laws(a[k], b[k], a[k]);
        F::order_laws(b[k], a[k], b[k]);
    }
}

/// Dominance carries over among objective vectors of the same length that hold numbers only.
pub proof fn law_dominance_transitive<F: Real>(a: Seq<F>, b: Seq<F>, c: Seq<F>)
    requires
        a.len() == b.len() == c.len(),
        forall|k: int| 0 <= k < b.len() ==> float::defined(#[trigger] b[k]),
        forall|k: int| 0 <= k < c.len() ==> float::defined(#[trigger] c[k]),
        dominating(a, b),
        dominating(b, c),
    ensures
        dominating(a, c),
{
    assert forall|k: int| #![trigger a[k]] 0 <= k < a.len() && k < c.len() implies !c[k].spec_less(
        a[k],
    ) by {
        F::order_laws(b[k], c[k], a[k]);
    }
    let k = choose|k: int|
        #![trigger a[k]]
        0 <= k < a.len() && k < b.len() && a[k].spec_less(b[k]);
    assert(!c[k].spec_less(b[k]));
    F::order_laws(a[k], b[k], c[k]);
    F::order_laws(b[k], c[k], a[k]);
}

/// An individual on one of the first `k` fronts is on one of the first `l` for every larger `l`.
pub proof fn law_settled_monotone<F: Real>(objectives: Seq<Seq<F>>, k: nat, l: nat, j: int)
    requires
        k <= l,
        settled(objectives, k, j),
    ensures
        settled(objectives, l, j),
    decreases l,
{
    assert forall|i: int|
        0 <= i < objectives.len() && #[trigger] dominating(
            objectives[i],
            objectives[j],
        ) implies settled(objectives, (l - 1) as nat, i) by {
        law_settled_monotone(objectives, (k - 1) as nat, (l - 1) as nat, i);
    }
}

/// No individual is on two fronts.
pub proof fn law_front_unique<F: Real>(objectives: Seq<Seq<F>>, r: nat, j: int)
    requires
        on_front(objectives, r, j),
    ensures
        front_of(objectives, j) == Some(r),
{
    let s = choose|s: nat| on_front(objectives, s, j);
    assert(on_front(objectives, s, j));
    if s < r {
        law_settled_monotone(objectives, s + 1, r, j);
    }
    if r < s {
        law_settled_monotone(objectives, r + 1, s, j);
    }
}

/// An individual is on the first front exactly if no individual dominates it.
pub proof fn law_first_front<F: Real>(objectives: Seq<Seq<F>>, j: int)
    ensures
        front_of(objectives, j) == Some(0nat) <==> forall|i: int|
            0 <= i < objectives.len() ==> !#[trigger] dominating(objectives[i], objectives[j]),
{
    reveal_with_fuel(settled, 2);
    if front_of(objectives, j) == Some(0nat) {
        assert(on_front(objectives, 0, j));
    } else {
        if settled(objectives, 1, j) {
            law_front_unique(objectives, 0, j);
        }
    }
}

/// Whoever dominates an individual on a front is on an earlier front.
pub proof fn law_dominator_on_earlier_front<F: Real>(
    objectives: Seq<Seq<F>>,
    i: int,
    j: int,
    r: nat,
)
    requires
        0 <= i < objectives.len(),
        dominating(objectives[i], objectives[j]),
        front_of(objectives, j) == Some(r),
    ensures
        front_of(objectives, i) matches Some(s) && s < r,
{
    assert(on_front(objectives, r, j));
    assert(settled(objectives, r, i));
    let s = lemma_settled_has_front(objectives, r, i);
    law_front_unique(objectives, s, i);
}

/// Fronts follow each other without a gap: every individual that is not on the first front is
/// dominated by one on the front before its own.
pub proof fn law_fronts_follow_each_other<F: Real>(objectives: Seq<Seq<F>>, r: nat, j: int)
    requires
        front_of(objectives, j) == Some(r),
        r > 0,
    ensures
        exists|i: int|
            0 <= i < objectives.len() && #[trigger] dominating(objectives[i], objectives[j])
                && front_of(objectives, i) == Some((r - 1) as nat),
{
    assert(on_front(objectives, r, j));
    let i = choose|i: int|
        0 <= i < objectives.len() && #[trigger] dominating(objectives[i], objectives[j])
            && !settled(objectives, (r - 1) as nat, i);
    assert(on_front(objectives, (r - 1) as nat, i));
    law_front_unique(objectives, (r - 1) as nat, i);
}

/// An individual on one of the first `k` fronts is on one particular front.
pub proof fn lemma_settled_has_front<F: Real>(objectives: Seq<Seq<F>>, k: nat, j: int) -> (r: nat)
    requires
        settled(objectives, k, j),
    ensures
        r < k,
        on_front(objectives, r, j),
    decreases k,
{
    if settled(objectives, (k - 1) as nat, j) {
        lemma_settled_has_front(objectives, (k - 1) as nat, j)
    } else {
        (k - 1) as nat
    }
}

/// How many individuals dominate individual `j`.
pub open spec fn dominators<F: Real>(objectives: Seq<Seq<F>>, j: int) -> nat {
    counting::count(objectives.len(), |i: int| dominating(objectives[i], objectives[j]))
}

/// Among objective vectors of the same length that hold numbers only, every individual is on a
/// front, and the number of the front does not exceed the number of individuals that dominate it.
pub proof fn law_everyone_on_a_front<F: Real>(objectives: Seq<Seq<F>>, j: int)
    requires
        well_defined(objectives),
        0 <= j < objectives.len(),
    ensures
        front_of(objectives, j) matches Some(r) && r <= dominators(objectives, j)
            && r < objectives.len(),
{
    lemma_settled_by_dominators(objectives, j);
    let r = lemma_settled_has_front(objectives, dominators(objectives, j) + 1, j);
    law_front_unique(objectives, r, j);
    let p = |i: int| dominating(objectives[i], objectives[j]);
    let all = |i: int| true;
    law_dominance_asymmetric(objectives[j], objectives[j]);
    counting::lemma_count_less(objectives.len(), all, p, j);
    counting::lemma_count_bound(objectives.len(), all);
}

/// An individual is on one of the fronts up to the number of its dominators.
proof fn lemma_settled_by_dominators<F: Real>(objectives: Seq<Seq<F>>, j: int)
    requires
        well_defined(objectives),
        0 <= j < objectives.len(),
    ensures
        settled(objectives, dominators(objectives, j) + 1, j),
    decreases dominators(objectives, j),
{
    let d = dominators(objectives, j);
    assert forall|i: int|
        0 <= i < objectives.len() && #[trigger] dominating(
            objectives[i],
            objectives[j],
        ) implies settled(objectives, d, i) by {
        let of_j = |h: int| dominating(objectives[h], objectives[j]);
        let of_i = |h: int| dominating(objectives[h], objectives[i]);
        law_dominance_asymmetric(objectives[i], objectives[i]);
        assert forall|h: int| 0 <= h < objectives.len() && #[trigger] of_i(h) implies of_j(h) by {
            assert forall|k: int| 0 <= k < objectives[i].len() implies float::defined(
                #[trigger] objectives[i][k],
            ) by {}
            law_dominance_transitive(objectives[h], objectives[i], objectives[j]);
        }
        counting::lemma_count_less(objectives.len(), of_j, of_i, i);
        lemma_settled_by_dominators(objectives, i);
        law_settled_monotone(objectives, dominators(objectives, i) + 1, d, i);
    }
}

/// There are fewer fronts in front of an individual than there are other individuals.
pub proof fn law_front_below_population<F: Real>(objectives: Seq<Seq<F>>, r: nat, j: int)
    requires
        0 <= j < objectives.len(),
        on_front(objectives, r, j),
    ensures
        r < objectives.len(),
{
    let before = |h: int| settled(objectives, r, h);
    let all = |h: int| true;
    lemma_fronts_have_members(objectives, r, j);
    counting::lemma_count_less(objectives.len(), all, before, j);
    counting::lemma_count_bound(objectives.len(), all);
}

/// The fronts in front of front `r` have at least `r` members.
proof fn lemma_fronts_have_members<F: Real>(objectives: Seq<Seq<F>>, r: nat, j: int)
    requires
        0 <= j < objectives.len(),
        on_front(objectives, r, j),
    ensures
        counting::count(objectives.len(), |h: int| settled(objectives, r, h)) >= r,
    decreases r,
{
    if r > 0 {
        let i = choose|i: int|
            0 <= i < objectives.len() && #[trigger] dominating(objectives[i], objectives[j])
                && !settled(objectives, (r - 1) as nat, i);
        assert(on_front(objectives, (r - 1) as nat, i));
        lemma_fronts_have_members(objectives, (r - 1) as nat, i);
        let now = |h: int| settled(objectives, r, h);
        let earlier = |h: int| settled(objectives, (r - 1) as nat, h);
        assert forall|h: int| 0 <= h < objectives.len() && #[trigger] earlier(h) implies now(h) by {
            law_settled_monotone(objectives, (r - 1) as nat, r, h);
        }
        counting::lemma_count_less(objectives.len(), now, earlier, i);
    }
}

} // verus!
