//! Costs of subsets, and subsets together with their costs.

use crate::error;
use crate::error::{Error, ErrorView};
use crate::float;
use crate::float::{Order, Real};
use crate::greedysubsetselection::subset;
use crate::greedysubsetselection::subset::{insert_sorted, remove_sorted};
use vstd::prelude::*;

verus! {

/// A subset-selection cost function over a finite set of indexed items.
///
/// Parameters passed to [`SubsetSelectionCost::cost`] are sorted ascending, duplicate free subsets.
/// Override the incremental methods when a marginal add, removal, or swap can be evaluated more
/// cheaply than a full cost call.
pub trait SubsetSelectionCost: Sync {
    /// The type of costs.
    type Cost: Real;

    /// Total number of items available for selection.
    closed spec fn item_count(&self) -> nat {
        arbitrary()
    }

    /// The cost of `subset`, or why it has none.
    closed spec fn cost_of(&self, subset: Seq<usize>) -> Result<Self::Cost, ErrorView> {
        arbitrary()
    }

    /// Total number of items available for selection.
    fn n_items(&self) -> (r: usize)
        ensures
            r == self.item_count(),
    ;

    /// Cost of `param`, a sorted ascending, duplicate free subset.
    fn cost(&self, param: &Vec<usize>) -> (r: Result<Self::Cost, Error>)
        requires
            subset::is_subset(param@, self.item_count()),
        ensures
            error::outcome(r) == self.cost_of(param@),
    ;

    /// Cost of `current` with `candidate` inserted.
    ///
    /// `candidate` must not already be selected. `current` is sorted ascending.
    fn cost_with_added(&self, current: &[usize], candidate: usize) -> (r: Result<
        Self::Cost,
        Error,
    >)
        requires
            subset::is_subset(current@, self.item_count()),
            candidate < self.item_count(),
            !current@.contains(candidate),
        ensures
            error::outcome(r) == self.cost_of(subset::with_item(current@, candidate)),
    {
        let mut next = duplicate(current);
        insert_sorted(&mut next, candidate);
        proof {
            subset::law_with_item(current@, candidate, self.item_count());
        }
        self.cost(&next)
    }

    /// Cost of `current` with `removed` deleted.
    ///
    /// `removed` must be selected. `current` is sorted ascending.
    fn cost_with_removed(&self, current: &[usize], removed: usize) -> (r: Result<
        Self::Cost,
        Error,
    >)
        requires
            subset::is_subset(current@, self.item_count()),
            current@.contains(removed),
        ensures
            error::outcome(r) == self.cost_of(subset::without_item(current@, removed)),
    {
        let mut next = duplicate(current);
        remove_sorted(&mut next, removed);
        self.cost(&next)
    }

    /// Cost of `current` with `removed` replaced by `added`.
    ///
    /// `removed` must be selected and `added` must not be selected.
    fn cost_with_swapped(&self, current: &[usize], removed: usize, added: usize) -> (r: Result<
        Self::Cost,
        Error,
    >)
        requires
            subset::is_subset(current@, self.item_count()),
            current@.contains(removed),
            added < self.item_count(),
            !current@.contains(added),
        ensures
            error::outcome(r) == self.cost_of(subset::swapped(current@, removed, added)),
    {
        let mut next = duplicate(current);
        remove_sorted(&mut next, removed);
        proof {
            subset::law_swapped(current@, removed, added, self.item_count());
        }
        insert_sorted(&mut next, added);
        self.cost(&next)
    }
}

/// A copy of a list of items.
pub fn duplicate(items: &[usize]) -> (r: Vec<usize>)
    ensures
        r@ == items@,
{
    let mut r: Vec<usize> = Vec::with_capacity(items.len());
    let mut k: usize = 0;
    while k < items.len()
        invariant
            k <= items@.len(),
            r@ == items@.take(k as int),
        decreases items@.len() - k,
    {
        r.push(items[k]);
        k = k + 1;
    }
    r
}

/// A solved subset.
#[derive(Clone, Debug, PartialEq)]
pub struct Subset<C> {
    /// Sorted ascending selected indices.
    pub indices: Vec<usize>,
    /// Cost reported by [`SubsetSelectionCost`].
    pub cost: C,
}

/// The abstract value of a solved subset.
#[verifier::ext_equal]
pub struct SubsetView<C> {
    /// Sorted ascending selected indices.
    pub indices: Seq<usize>,
    /// The cost of the subset.
    pub cost: C,
}

impl<C> View for Subset<C> {
    type V = SubsetView<C>;

    open spec fn view(&self) -> SubsetView<C> {
        SubsetView { indices: self.indices@, cost: self.cost }
    }
}

/// Whether `s` selects items of the problem and carries the cost that the problem gives them.
pub open spec fn is_priced<P: SubsetSelectionCost>(problem: P, s: SubsetView<P::Cost>) -> bool {
    &&& subset::is_subset(s.indices, problem.item_count())
    &&& problem.cost_of(s.indices) == Ok::<P::Cost, ErrorView>(s.cost)
}

/// Whether the problem gives every subset a cost.
pub open spec fn is_total<P: SubsetSelectionCost>(problem: P) -> bool {
    forall|s: Seq<usize>|
        subset::is_subset(s, problem.item_count()) ==> #[trigger] problem.cost_of(s) is Ok
}

/// Whether all the costs that the problem gives are numbers.
pub open spec fn has_defined_costs<P: SubsetSelectionCost>(problem: P) -> bool {
    forall|s: Seq<usize>| #[trigger]
        problem.cost_of(s) matches Ok(c) ==> float::defined(c)
}

/// How two numbers compare.
pub open spec fn size_order(a: nat, b: nat) -> Order {
    if a < b {
        Order::Less
    } else if a > b {
        Order::Greater
    } else {
        Order::Equal
    }
}

/// How two lists compare: by their first different items, or by their lengths if one is the start
/// of the other.
pub open spec fn item_order(a: Seq<usize>, b: Seq<usize>) -> Order
    decreases a.len(),
{
    if a.len() == 0 || b.len() == 0 {
        size_order(a.len(), b.len())
    } else {
        size_order(a[0] as nat, b[0] as nat).or(item_order(a.drop_first(), b.drop_first()))
    }
}

/// How two subsets compare: by cost, then by size, then by their items.
pub open spec fn subset_order<C: Real>(a: SubsetView<C>, b: SubsetView<C>) -> Order {
    float::order_of(a.cost, b.cost).or(size_order(a.indices.len(), b.indices.len())).or(
        item_order(a.indices, b.indices),
    )
}

/// Whether `a` comes before `b`.
pub open spec fn is_better<C: Real>(a: SubsetView<C>, b: SubsetView<C>) -> bool {
    subset_order(a, b) == Order::Less
}

fn compare_sizes(a: usize, b: usize) -> (r: Order)
    ensures
        r == size_order(a as nat, b as nat),
{
    if a < b {
        Order::Less
    } else if a > b {
        Order::Greater
    } else {
        Order::Equal
    }
}

fn compare_items(a: &Vec<usize>, b: &Vec<usize>) -> (r: Order)
    ensures
        r == item_order(a@, b@),
{
    let mut k: usize = 0;
    assert(a@.skip(0) =~= a@);
    assert(b@.skip(0) =~= b@);
    while k < a.len() && k < b.len()
        invariant
            k <= a@.len(),
            k <= b@.len(),
            item_order(a@, b@) == item_order(a@.skip(k as int), b@.skip(k as int)),
        decreases a@.len() - k,
    {
        assert(a@.skip(k as int).drop_first() =~= a@.skip(k + 1));
        assert(b@.skip(k as int).drop_first() =~= b@.skip(k + 1));
        if a[k] != b[k] {
            return compare_sizes(a[k], b[k]);
        }
        k = k + 1;
    }
    compare_sizes(a.len(), b.len())
}

/// How two subsets compare: by cost, then by size, then by their items.
pub fn compare_subsets<C: Real>(left: &Subset<C>, right: &Subset<C>) -> (r: Order)
    ensures
        r == subset_order(left@, right@),
{
    let by_cost = float::compare(left.cost, right.cost);
    if by_cost != Order::Equal {
        return by_cost;
    }
    let by_size = compare_sizes(left.indices.len(), right.indices.len());
    if by_size != Order::Equal {
        return by_size;
    }
    compare_items(&left.indices, &right.indices)
}

/// Exchanging two lists reverses how they compare.
pub proof fn lemma_item_order_reverses(a: Seq<usize>, b: Seq<usize>)
    ensures
        item_order(b, a) == item_order(a, b).spec_reverse(),
    decreases a.len(),
{
    if a.len() > 0 && b.len() > 0 {
        lemma_item_order_reverses(a.drop_first(), b.drop_first());
    }
}

/// Lists that compare as equal are equal.
pub proof fn lemma_item_order_equal(a: Seq<usize>, b: Seq<usize>)
    ensures
        item_order(a, b) == Order::Equal <==> a == b,
    decreases a.len(),
{
    if a.len() > 0 && b.len() > 0 {
        lemma_item_order_equal(a.drop_first(), b.drop_first());
        assert(a =~= seq![a[0]] + a.drop_first());
        assert(b =~= seq![b[0]] + b.drop_first());
    } else {
        assert(a.len() == b.len() ==> a =~= b);
    }
}

/// Lists compare transitively.
pub proof fn lemma_item_order_transitive(a: Seq<usize>, b: Seq<usize>, c: Seq<usize>)
    requires
        item_order(a, b) == Order::Less,
        item_order(b, c) == Order::Less,
    ensures
        item_order(a, c) == Order::Less,
    decreases a.len(),
{
    if a.len() > 0 && b.len() > 0 && c.len() > 0 {
        if a[0] == b[0] && b[0] == c[0] {
            lemma_item_order_transitive(a.drop_first(), b.drop_first(), c.drop_first());
        }
    }
}

/// Exchanging two subsets reverses how they compare.
pub proof fn law_subset_order_reverses<C: Real>(a: SubsetView<C>, b: SubsetView<C>)
    ensures
        subset_order(b, a) == subset_order(a, b).spec_reverse(),
{
    float::law_order_reverses(a.cost, b.cost);
    lemma_item_order_reverses(a.indices, b.indices);
}

/// Subsets with defined costs compare transitively: a subset that is no better than a second,
/// which is no better than a third, is no better than the third.
pub proof fn law_subset_order_transitive<C: Real>(
    a: SubsetView<C>,
    b: SubsetView<C>,
    c: SubsetView<C>,
)
    requires
        float::defined(a.cost),
        float::defined(b.cost),
        float::defined(c.cost),
        !is_better(a, b),
        !is_better(b, c),
    ensures
        !is_better(a, c),
{
    C::order_laws(b.cost, a.cost, c.cost);
    C::order_laws(a.cost, c.cost, b.cost);
    let (x, y, z) = (a.indices, b.indices, c.indices);
    lemma_item_order_reverses(x, y);
    lemma_item_order_reverses(y, z);
    lemma_item_order_reverses(x, z);
    lemma_item_order_equal(x, y);
    lemma_item_order_equal(y, z);
    if item_order(z, y) == Order::Less && item_order(y, x) == Order::Less {
        lemma_item_order_transitive(z, y, x);
    }
}

} // verus!
