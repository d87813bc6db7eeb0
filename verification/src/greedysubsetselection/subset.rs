//! Subsets of the items as ascending sequences of their indices.

use vstd::prelude::*;

verus! {

/// Whether `s` is strictly ascending.
pub open spec fn is_ascending(s: Seq<usize>) -> bool {
    forall|i: int, j: int| 0 <= i < j < s.len() ==> #[trigger] s[i] < #[trigger] s[j]
}

/// Whether `s` lists, in ascending order, some of the items below `n`.
pub open spec fn is_subset(s: Seq<usize>, n: nat) -> bool {
    &&& is_ascending(s)
    &&& forall|i: int| 0 <= i < s.len() ==> #[trigger] s[i] < n
}

/// How many items at the start of `s` are below `item`.
pub open spec fn below(s: Seq<usize>, item: usize) -> nat
    decreases s.len(),
{
    if s.len() == 0 || s[0] >= item {
        0
    } else {
        1 + below(s.drop_first(), item)
    }
}

/// `s` with `item` inserted behind the items below it.
pub open spec fn with_item(s: Seq<usize>, item: usize) -> Seq<usize> {
    s.insert(below(s, item) as int, item)
}

/// `s` without `item`.
pub open spec fn without_item(s: Seq<usize>, item: usize) -> Seq<usize> {
    if s.contains(item) {
        s.remove(s.index_of(item))
    } else {
        s
    }
}

/// `s` with `added` in place of `removed`.
pub open spec fn swapped(s: Seq<usize>, removed: usize, added: usize) -> Seq<usize> {
    with_item(without_item(s, removed), added)
}

/// The items below `n` that are not in `s`, in ascending order.
pub open spec fn complement(n: nat, s: Seq<usize>) -> Seq<usize>
    decreases n,
{
    if n == 0 {
        Seq::empty()
    } else if s.contains((n - 1) as usize) {
        complement((n - 1) as nat, s)
    } else {
        complement((n - 1) as nat, s).push((n - 1) as usize)
    }
}

/// The items below `n`, in ascending order.
pub open spec fn first_items(n: nat) -> Seq<usize> {
    Seq::new(n, |i: int| i as usize)
}

/// The items of `s` in ascending order.
pub open spec fn ascending(s: Seq<usize>) -> Seq<usize>
    decreases s.len(),
{
    if s.len() == 0 {
        s
    } else {
        with_item(ascending(s.drop_last()), s.last())
    }
}

/// What separates the items below `item` from the others.
pub proof fn lemma_below(s: Seq<usize>, item: usize)
    requires
        is_ascending(s),
    ensures
        below(s, item) <= s.len(),
        forall|i: int| 0 <= i < below(s, item) ==> #[trigger] s[i] < item,
        forall|i: int| below(s, item) <= i < s.len() ==> #[trigger] s[i] >= item,
    decreases s.len(),
{
    if s.len() > 0 && s[0] < item {
        let t = s.drop_first();
        lemma_below(t, item);
        assert forall|i: int| 0 <= i < below(s, item) implies #[trigger] s[i] < item by {
            if i > 0 {
                assert(s[i] == t[i - 1]);
            }
        }
        assert forall|i: int| below(s, item) <= i < s.len() implies #[trigger] s[i] >= item by {
            assert(s[i] == t[i - 1]);
        }
    }
}

/// Only one position separates the items below `item` from the others.
proof fn lemma_below_unique(s: Seq<usize>, item: usize, k: int)
    requires
        is_ascending(s),
        0 <= k <= s.len(),
        forall|i: int| 0 <= i < k ==> #[trigger] s[i] < item,
        forall|i: int| k <= i < s.len() ==> #[trigger] s[i] >= item,
    ensures
        k == below(s, item),
{
    lemma_below(s, item);
    let b = below(s, item) as int;
    if b < k {
        assert(s[b] < item);
    } else if k < b {
        assert(s[k] < item);
    }
}

/// No more items of a list are below another than there are.
proof fn lemma_below_bound(s: Seq<usize>, item: usize)
    ensures
        below(s, item) <= s.len(),
    decreases s.len(),
{
    if s.len() > 0 && s[0] < item {
        lemma_below_bound(s.drop_first(), item);
    }
}

/// Everything that is in a list is in it after another item has been inserted.
pub proof fn lemma_with_item_keeps(s: Seq<usize>, item: usize)
    ensures
        forall|x: usize| #[trigger] s.contains(x) ==> with_item(s, item).contains(x),
{
    lemma_below_bound(s, item);
    let b = below(s, item) as int;
    let r = with_item(s, item);
    assert forall|x: usize| #[trigger] s.contains(x) implies r.contains(x) by {
        let i = choose|i: int| 0 <= i < s.len() && s[i] == x;
        if i < b {
            assert(r[i] == x);
        } else {
            assert(r[i + 1] == x);
        }
    }
}

/// Inserting an item that is not there gives an ascending sequence with that one item more.
pub proof fn law_with_item(s: Seq<usize>, item: usize, n: nat)
    requires
        is_subset(s, n),
        item < n,
        !s.contains(item),
    ensures
        is_subset(with_item(s, item), n),
        with_item(s, item).len() == s.len() + 1,
        forall|x: usize| #[trigger] with_item(s, item).contains(x) <==> s.contains(x) || x == item,
{
    lemma_below(s, item);
    let b = below(s, item) as int;
    let r = with_item(s, item);
    assert forall|x: usize| #[trigger] r.contains(x) <==> s.contains(x) || x == item by {
        if s.contains(x) {
            let i = choose|i: int| 0 <= i < s.len() && s[i] == x;
            if i < b {
                assert(r[i] == x);
            } else {
                assert(r[i + 1] == x);
            }
        }
        if x == item {
            assert(r[b] == x);
        }
    }
}

/// Removing an item that is there gives an ascending sequence with all the other items.
pub proof fn law_without_item(s: Seq<usize>, item: usize, n: nat)
    requires
        is_subset(s, n),
        s.contains(item),
    ensures
        is_subset(without_item(s, item), n),
        without_item(s, item).len() == s.len() - 1,
        forall|x: usize|
            #[trigger] without_item(s, item).contains(x) <==> s.contains(x) && x != item,
{
    let k = s.index_of(item);
    let r = without_item(s, item);
    assert forall|x: usize| #[trigger] r.contains(x) <==> s.contains(x) && x != item by {
        if s.contains(x) && x != item {
            let i = choose|i: int| 0 <= i < s.len() && s[i] == x;
            if i < k {
                assert(r[i] == x);
            } else {
                assert(r[i - 1] == x);
            }
        }
    }
}

/// Replacing an item by one that is not there gives a subset of the same size.
pub proof fn law_swapped(s: Seq<usize>, removed: usize, added: usize, n: nat)
    requires
        is_subset(s, n),
        s.contains(removed),
        added < n,
        !s.contains(added),
    ensures
        is_subset(swapped(s, removed, added), n),
        swapped(s, removed, added).len() == s.len(),
        forall|x: usize|
            #[trigger] swapped(s, removed, added).contains(x) <==> (s.contains(x) && x != removed) || x
                == added,
{
    law_without_item(s, removed, n);
    law_with_item(without_item(s, removed), added, n);
}

/// Taking an item out again undoes putting it in.
pub proof fn law_without_undoes_with(s: Seq<usize>, item: usize, n: nat)
    requires
        is_subset(s, n),
        item < n,
        !s.contains(item),
    ensures
        without_item(with_item(s, item), item) == s,
{
    lemma_below(s, item);
    let b = below(s, item) as int;
    let r = with_item(s, item);
    assert(r[b] == item);
}

/// The complement holds exactly the items that are not in the subset.
pub proof fn law_complement(n: nat, s: Seq<usize>)
    requires
        n <= usize::MAX,
    ensures
        is_subset(complement(n, s), n),
        forall|x: usize| #[trigger] complement(n, s).contains(x) <==> x < n && !s.contains(x),
    decreases n,
{
    if n > 0 {
        let m = (n - 1) as nat;
        law_complement(m, s);
        let c = complement(m, s);
        let r = complement(n, s);
        assert forall|x: usize| #[trigger] r.contains(x) <==> x < n && !s.contains(x) by {
            if !s.contains(m as usize) {
                if r.contains(x) {
                    let i = choose|i: int| 0 <= i < r.len() && r[i] == x;
                    if i < c.len() {
                        assert(c.contains(x));
                    }
                }
                if x < n && !s.contains(x) {
                    if x == m {
                        assert(r[c.len() as int] == x);
                    } else {
                        assert(c.contains(x));
                        let i = choose|i: int| 0 <= i < c.len() && c[i] == x;
                        assert(r[i] == x);
                    }
                }
            }
        }
    }
}

/// An ascending sequence is determined by the items that it holds.
pub proof fn lemma_same_items(s: Seq<usize>, t: Seq<usize>)
    requires
        is_ascending(s),
        is_ascending(t),
        forall|x: usize| s.contains(x) <==> t.contains(x),
    ensures
        s == t,
    decreases s.len(),
{
    if s.len() == 0 {
        if t.len() > 0 {
            assert(t.contains(t[0]));
        }
    } else {
        assert(t.contains(s[0]));
        assert(s.contains(t[0]));
        let s1 = s.drop_first();
        let t1 = t.drop_first();
        assert forall|x: usize| s1.contains(x) <==> t1.contains(x) by {
            if s1.contains(x) {
                assert(t.contains(x));
                let m = choose|m: int| 0 <= m < t.len() && t[m] == x;
                assert(t1[m - 1] == x);
            }
            if t1.contains(x) {
                assert(s.contains(x));
                let m = choose|m: int| 0 <= m < s.len() && s[m] == x;
                assert(s1[m - 1] == x);
            }
        }
        lemma_same_items(s1, t1);
        assert(t =~= seq![t[0]] + t1);
    }
}

/// A swap of the subset swaps its complement the other way round.
pub proof fn law_complement_of_swapped(n: nat, s: Seq<usize>, removed: usize, added: usize)
    requires
        n <= usize::MAX,
        is_subset(s, n),
        s.contains(removed),
        added < n,
        !s.contains(added),
    ensures
        complement(n, swapped(s, removed, added)) == swapped(complement(n, s), added, removed),
{
    law_complement(n, s);
    law_complement(n, swapped(s, removed, added));
    law_swapped(s, removed, added, n);
    law_swapped(complement(n, s), added, removed, n);
    lemma_same_items(
        complement(n, swapped(s, removed, added)),
        swapped(complement(n, s), added, removed),
    );
}

/// A subset and its complement have as many items together as there are.
pub proof fn law_complement_size(n: nat, s: Seq<usize>)
    requires
        n <= usize::MAX,
        is_subset(s, n),
    ensures
        complement(n, s).len() + s.len() == n,
    decreases n,
{
    if n == 0 {
    } else {
        let m = (n - 1) as nat;
        if s.len() > 0 && s.last() == m {
            let t = s.drop_last();
            law_complement_size(m, t);
            assert(s.contains(s.last()));
            lemma_complement_ignores(m, s, t);
        } else {
            law_complement_size(m, s);
        }
    }
}

/// Below `n`, the complement depends on the items below `n` alone.
proof fn lemma_complement_ignores(n: nat, s: Seq<usize>, t: Seq<usize>)
    requires
        n < usize::MAX,
        s.len() > 0,
        s.last() >= n,
        t == s.drop_last(),
    ensures
        complement(n, s) == complement(n, t),
    decreases n,
{
    if n > 0 {
        let x = (n - 1) as usize;
        lemma_complement_ignores((n - 1) as nat, s, t);
        if s.contains(x) {
            let i = choose|i: int| 0 <= i < s.len() && s[i] == x;
            assert(t[i] == x);
        }
    }
}

/// Where `item` belongs in an ascending list.
fn position_of(values: &Vec<usize>, item: usize) -> (k: usize)
    requires
        is_ascending(values@),
    ensures
        k == below(values@, item),
        k <= values@.len(),
{
    let mut low: usize = 0;
    let mut high: usize = values.len();
    while low < high
        invariant
            is_ascending(values@),
            low <= high <= values@.len(),
            forall|i: int| 0 <= i < low ==> #[trigger] values@[i] < item,
            forall|i: int| high <= i < values@.len() ==> #[trigger] values@[i] >= item,
        decreases high - low,
    {
        let middle: usize = low + (high - low) / 2;
        if values[middle] < item {
            low = middle + 1;
        } else {
            high = middle;
        }
    }
    proof {
        lemma_below_unique(values@, item, low as int);
    }
    low
}

/// Inserts `item` where it belongs.
pub fn insert_sorted(values: &mut Vec<usize>, item: usize)
    requires
        is_ascending(old(values)@),
    ensures
        final(values)@ == with_item(old(values)@, item),
{
    let insert_at: usize = position_of(values, item);
    values.insert(insert_at, item);
}

/// Removes `item`, if it is there.
pub fn remove_sorted(values: &mut Vec<usize>, item: usize)
    requires
        is_ascending(old(values)@),
    ensures
        final(values)@ == without_item(old(values)@, item),
{
    let k: usize = position_of(values, item);
    proof {
        lemma_below(values@, item);
    }
    if k < values.len() && values[k] == item {
        values.remove(k);
    }
}

/// Which of the first `n_items` items are selected.
pub fn selected_mask(n_items: usize, selected: &Vec<usize>) -> (mask: Vec<bool>)
    requires
        forall|i: int| 0 <= i < selected@.len() ==> #[trigger] selected@[i] < n_items,
    ensures
        mask@.len() == n_items,
        forall|i: int| 0 <= i < n_items ==> #[trigger] mask@[i] == selected@.contains(i as usize),
{
    let mut mask: Vec<bool> = Vec::new();
    let mut k: usize = 0;
    while k < n_items
        invariant
            k <= n_items,
            mask@.len() == k,
            forall|i: int| 0 <= i < k ==> !#[trigger] mask@[i],
        decreases n_items - k,
    {
        mask.push(false);
        k = k + 1;
    }
    let mut j: usize = 0;
    while j < selected.len()
        invariant
            j <= selected@.len(),
            mask@.len() == n_items,
            forall|i: int| 0 <= i < selected@.len() ==> #[trigger] selected@[i] < n_items,
            forall|i: int|
                0 <= i < n_items ==> #[trigger] mask@[i] == selected@.take(j as int).contains(
                    i as usize,
                ),
        decreases selected@.len() - j,
    {
        let item: usize = selected[j];
        mask.set(item, true);
        proof {
            let after = selected@.take(j + 1);
            assert forall|i: int| 0 <= i < n_items implies #[trigger] mask@[i] == after.contains(
                i as usize,
            ) by {
                if i == item {
                    assert(after[j as int] == i);
                }
            }
        }
        j = j + 1;
    }
    assert(selected@.take(selected@.len() as int) =~= selected@);
    mask
}

/// The items below `n_items` that are not selected.
pub fn unselected(n_items: usize, selected: &Vec<usize>) -> (r: Vec<usize>)
    requires
        forall|i: int| 0 <= i < selected@.len() ==> #[trigger] selected@[i] < n_items,
    ensures
        r@ == complement(n_items as nat, selected@),
{
    let mask = selected_mask(n_items, selected);
    let mut r: Vec<usize> = Vec::new();
    let mut k: usize = 0;
    while k < n_items
        invariant
            k <= n_items,
            mask@.len() == n_items,
            forall|i: int|
                0 <= i < n_items ==> #[trigger] mask@[i] == selected@.contains(i as usize),
            r@ == complement(k as nat, selected@),
        decreases n_items - k,
    {
        if !mask[k] {
            r.push(k);
        }
        k = k + 1;
    }
    r
}

/// The items of `items` in ascending order.
pub fn sort(items: &Vec<usize>) -> (r: Vec<usize>)
    requires
        items@.no_duplicates(),
    ensures
        r@ == ascending(items@),
{
    let mut r: Vec<usize> = Vec::new();
    let mut k: usize = 0;
    while k < items.len()
        invariant
            k <= items@.len(),
            items@.no_duplicates(),
            r@ == ascending(items@.take(k as int)),
            is_ascending(r@),
            forall|x: usize| #[trigger] r@.contains(x) <==> items@.take(k as int).contains(x),
        decreases items@.len() - k,
    {
        proof {
            let t = items@.take(k + 1);
            assert(t.drop_last() =~= items@.take(k as int));
            lemma_ascending_step(t);
        }
        insert_sorted(&mut r, items[k]);
        k = k + 1;
    }
    assert(items@.take(items@.len() as int) =~= items@);
    r
}

proof fn lemma_ascending_step(t: Seq<usize>)
    requires
        t.len() > 0,
        t.no_duplicates(),
        is_ascending(ascending(t.drop_last())),
        forall|x: usize| #[trigger] ascending(t.drop_last()).contains(x) <==> t.drop_last().contains(x),
    ensures
        is_ascending(ascending(t)),
        ascending(t).len() == ascending(t.drop_last()).len() + 1,
        forall|x: usize| #[trigger] ascending(t).contains(x) <==> t.contains(x),
{
    let s = ascending(t.drop_last());
    let item = t.last();
    let n = usize::MAX as nat + 1;
    law_with_item(s, item, n);
    assert forall|x: usize| #[trigger] ascending(t).contains(x) <==> t.contains(x) by {
        if t.contains(x) {
            let i = choose|i: int| 0 <= i < t.len() && t[i] == x;
            if i < t.len() - 1 {
                assert(t.drop_last()[i] == x);
            }
        }
    }
}

/// Sorting distinct items keeps all of them and puts them in ascending order.
pub proof fn law_ascending(s: Seq<usize>)
    requires
        s.no_duplicates(),
    ensures
        is_ascending(ascending(s)),
        ascending(s).len() == s.len(),
        forall|x: usize| #[trigger] ascending(s).contains(x) <==> s.contains(x),
    decreases s.len(),
{
    if s.len() > 0 {
        law_ascending(s.drop_last());
        lemma_ascending_step(s);
    }
}

} // verus!
