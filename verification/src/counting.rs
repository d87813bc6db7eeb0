//! Which and how many of the first natural numbers have a property.

use vstd::prelude::*;

verus! {

/// How many `i` below `n` satisfy `p`.
pub open spec fn count(n: nat, p: spec_fn(int) -> bool) -> nat
    decreases n,
{
    if n == 0 {
        0
    } else {
        count((n - 1) as nat, p) + if p(n - 1) {
            1nat
        } else {
            0nat
        }
    }
}

/// The least number from `i` up to, but not including, `n` that satisfies `p`.
pub open spec fn first(n: nat, p: spec_fn(int) -> bool, i: int) -> Option<nat>
    decreases n - i,
{
    if i >= n {
        None
    } else if p(i) {
        Some(i as nat)
    } else {
        first(n, p, i + 1)
    }
}

/// At most `n` numbers below `n` have a property.
pub proof fn lemma_count_bound(n: nat, p: spec_fn(int) -> bool)
    ensures
        count(n, p) <= n,
    decreases n,
{
    if n > 0 {
        lemma_count_bound((n - 1) as nat, p);
    }
}

/// Properties that agree below `n` are counted alike.
pub proof fn lemma_count_equal(n: nat, p: spec_fn(int) -> bool, q: spec_fn(int) -> bool)
    requires
        forall|i: int| 0 <= i < n ==> #[trigger] p(i) == q(i),
    ensures
        count(n, p) == count(n, q),
    decreases n,
{
    if n > 0 {
        lemma_count_equal((n - 1) as nat, p, q);
    }
}

/// A count is zero exactly where no number has the property.
pub proof fn lemma_count_zero(n: nat, p: spec_fn(int) -> bool)
    ensures
        count(n, p) == 0 <==> forall|i: int| 0 <= i < n ==> !#[trigger] p(i),
    decreases n,
{
    if n > 0 {
        lemma_count_zero((n - 1) as nat, p);
    }
}

/// Taking the property from the one number `k` lowers the count by one.
pub proof fn lemma_count_remove(
    n: nat,
    p: spec_fn(int) -> bool,
    q: spec_fn(int) -> bool,
    k: int,
)
    requires
        0 <= k < n,
        p(k),
        !q(k),
        forall|i: int| 0 <= i < n && i != k ==> #[trigger] p(i) == q(i),
    ensures
        count(n, p) == count(n, q) + 1,
    decreases n,
{
    if k == n - 1 {
        lemma_count_equal((n - 1) as nat, p, q);
    } else {
        lemma_count_remove((n - 1) as nat, p, q, k);
    }
}

/// A property that holds less often, and fails somewhere in addition, has a lower count.
pub proof fn lemma_count_less(
    n: nat,
    p: spec_fn(int) -> bool,
    q: spec_fn(int) -> bool,
    k: int,
)
    requires
        0 <= k < n,
        p(k),
        !q(k),
        forall|i: int| 0 <= i < n && #[trigger] q(i) ==> p(i),
    ensures
        count(n, q) < count(n, p),
    decreases n,
{
    if k == n - 1 {
        lemma_count_subset((n - 1) as nat, p, q);
    } else {
        lemma_count_less((n - 1) as nat, p, q, k);
    }
}

/// A property that holds less often has no higher a count.
pub proof fn lemma_count_subset(n: nat, p: spec_fn(int) -> bool, q: spec_fn(int) -> bool)
    requires
        forall|i: int| 0 <= i < n && #[trigger] q(i) ==> p(i),
    ensures
        count(n, q) <= count(n, p),
    decreases n,
{
    if n > 0 {
        lemma_count_subset((n - 1) as nat, p, q);
    }
}

} // verus!
