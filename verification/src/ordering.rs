//! Stable sorting.

use vstd::prelude::*;

verus! {

/// A rule that says which of two elements comes first.
pub trait Precedence<T> {
    /// Which pairs of elements are such that the first comes before the second.
    closed spec fn order(&self) -> spec_fn(T, T) -> bool {
        arbitrary()
    }

    /// Whether the rule applies to `a`.
    closed spec fn covers(&self, a: T) -> bool {
        arbitrary()
    }

    /// Whether `a` comes before `b`.
    fn precedes(&self, a: &T, b: &T) -> (r: bool)
        requires
            self.covers(*a),
            self.covers(*b),
        ensures
            r == (self.order())(*a, *b),
    ;
}

/// How many elements at the start of `s` come before `x`.
pub open spec fn slot<T>(before: spec_fn(T, T) -> bool, s: Seq<T>, x: T) -> nat
    decreases s.len(),
{
    if s.len() == 0 || !before(s[0], x) {
        0
    } else {
        1 + slot(before, s.drop_first(), x)
    }
}

/// `s` in order. Each element stands in front of the later elements of `s` that do not come
/// before it.
pub open spec fn sorted<T>(before: spec_fn(T, T) -> bool, s: Seq<T>) -> Seq<T>
    decreases s.len(),
{
    if s.len() == 0 {
        s
    } else {
        let rest = sorted(before, s.drop_first());
        rest.insert(slot(before, rest, s[0]) as int, s[0])
    }
}

/// Whether the rule orders the elements of `s`: nothing comes before itself, and of two elements
/// one of which comes before the other, every third comes after the first or before the second.
pub open spec fn is_ordered_by<T>(before: spec_fn(T, T) -> bool, s: Seq<T>) -> bool {
    &&& forall|a: T| s.contains(a) ==> !#[trigger] before(a, a)
    &&& forall|a: T, b: T, c: T|
        s.contains(a) && s.contains(b) && s.contains(c) && #[trigger] before(a, b)
            && #[trigger] before(b, c) ==> before(a, c)
    &&& forall|a: T, b: T, c: T|
        s.contains(a) && s.contains(b) && s.contains(c) && #[trigger] before(a, c) && !before(a, b)
            ==> #[trigger] before(b, c)
}

/// Whether neither of two elements comes before the other.
pub open spec fn tied<T>(before: spec_fn(T, T) -> bool, a: T, b: T) -> bool {
    !before(a, b) && !before(b, a)
}

/// No more elements come before one than there are.
pub proof fn lemma_slot_bound<T>(before: spec_fn(T, T) -> bool, s: Seq<T>, x: T)
    ensures
        slot(before, s, x) <= s.len(),
    decreases s.len(),
{
    if s.len() > 0 && before(s[0], x) {
        lemma_slot_bound(before, s.drop_first(), x);
    }
}

/// The elements in front of the slot come before the element that it is for, and the one behind
/// it does not.
pub proof fn lemma_slot_separates<T>(before: spec_fn(T, T) -> bool, s: Seq<T>, x: T)
    ensures
        slot(before, s, x) <= s.len(),
        forall|i: int| 0 <= i < slot(before, s, x) ==> before(#[trigger] s[i], x),
        slot(before, s, x) < s.len() ==> !before(s[slot(before, s, x) as int], x),
    decreases s.len(),
{
    if s.len() > 0 && before(s[0], x) {
        let t = s.drop_first();
        lemma_slot_separates(before, t, x);
        assert forall|i: int| 0 <= i < slot(before, s, x) implies before(#[trigger] s[i], x) by {
            if i > 0 {
                assert(t[i - 1] == s[i]);
            }
        }
    }
}

/// Sorting neither adds nor loses elements.
pub proof fn law_sorted_is_permutation<T>(before: spec_fn(T, T) -> bool, s: Seq<T>)
    ensures
        sorted(before, s).to_multiset() == s.to_multiset(),
        sorted(before, s).len() == s.len(),
        forall|x: T| #[trigger] sorted(before, s).contains(x) <==> s.contains(x),
    decreases s.len(),
{
    broadcast use vstd::seq_lib::group_to_multiset_ensures;

    if s.len() > 0 {
        let t = s.drop_first();
        let rest = sorted(before, t);
        law_sorted_is_permutation(before, t);
        lemma_slot_bound(before, rest, s[0]);
        assert(s =~= t.insert(0, s[0]));
    }
    assert forall|x: T| #[trigger] sorted(before, s).contains(x) <==> s.contains(x) by {
        assert(sorted(before, s).contains(x) <==> sorted(before, s).to_multiset().count(x) > 0);
    }
}

/// After sorting by a rule that orders the elements, no element comes before an earlier one.
pub proof fn law_sorted_in_order<T>(before: spec_fn(T, T) -> bool, s: Seq<T>)
    requires
        is_ordered_by(before, s),
    ensures
        forall|i: int, j: int|
            0 <= i < j < s.len() ==> !before(
                #[trigger] sorted(before, s)[j],
                #[trigger] sorted(before, s)[i],
            ),
    decreases s.len(),
{
    if s.len() > 0 {
        let t = s.drop_first();
        law_sorted_in_order(before, t);
        law_sorted_is_permutation(before, t);
        let rest = sorted(before, t);
        let x = s[0];
        lemma_slot_separates(before, rest, x);
        let k = slot(before, rest, x) as int;
        let result = sorted(before, s);
        assert forall|i: int| 0 <= i < rest.len() implies s.contains(#[trigger] rest[i]) by {
            assert(rest.contains(rest[i]));
        }
        assert(forall|i: int, j: int|
            0 <= i < j < s.len() ==> !before(#[trigger] result[j], #[trigger] result[i]));
    }
}

/// Sorting by a rule that orders the elements keeps tied elements in the order in which they came.
pub proof fn law_sorted_is_stable<T>(before: spec_fn(T, T) -> bool, s: Seq<T>, x: T)
    requires
        is_ordered_by(before, s),
        s.contains(x),
    ensures
        sorted(before, s).filter(|y: T| tied(before, x, y)) == s.filter(|y: T| tied(before, x, y)),
{
    lemma_sorted_keeps_ties(before, s, s, x);
}

proof fn lemma_sorted_keeps_ties<T>(before: spec_fn(T, T) -> bool, whole: Seq<T>, s: Seq<T>, x: T)
    requires
        is_ordered_by(before, whole),
        whole.contains(x),
        forall|i: int| 0 <= i < s.len() ==> whole.contains(#[trigger] s[i]),
    ensures
        sorted(before, s).filter(|y: T| tied(before, x, y)) == s.filter(|y: T| tied(before, x, y)),
    decreases s.len(),
{
    let p = |y: T| tied(before, x, y);
    if s.len() > 0 {
        let t = s.drop_first();
        lemma_sorted_keeps_ties(before, whole, t, x);
        let rest = sorted(before, t);
        law_sorted_is_permutation(before, t);
        let k = slot(before, rest, s[0]) as int;
        lemma_slot_separates(before, rest, s[0]);
        let front = rest.take(k);
        let back = rest.skip(k);
        assert(rest =~= front + back);
        assert(rest.insert(k, s[0]) =~= front + (seq![s[0]] + back));
        assert(s =~= seq![s[0]] + t);
        Seq::filter_distributes_over_add(front, back, p);
        Seq::filter_distributes_over_add(front, seq![s[0]] + back, p);
        Seq::filter_distributes_over_add(seq![s[0]], back, p);
        Seq::filter_distributes_over_add(seq![s[0]], t, p);
        assert(seq![s[0]].filter(p) =~= if p(s[0]) {
            seq![s[0]]
        } else {
            seq![]
        }) by {
            reveal_with_fuel(Seq::filter, 2);
        }
        if p(s[0]) {
            assert forall|i: int| 0 <= i < front.len() implies !p(#[trigger] front[i]) by {
                let y = rest[i];
                assert(rest.contains(y));
            }
            lemma_filter_none(front, p);
        }
    }
}

/// Sorting by a rule on the abstract values of the elements sorts the abstract values.
pub proof fn lemma_sorted_views<T: View>(
    before: spec_fn(T, T) -> bool,
    before_views: spec_fn(T::V, T::V) -> bool,
    s: Seq<T>,
)
    requires
        forall|a: T, b: T| #[trigger] before(a, b) == before_views(a@, b@),
    ensures
        sorted(before, s).map_values(|x: T| x@) == sorted(before_views, s.map_values(|x: T| x@)),
    decreases s.len(),
{
    let view = |x: T| x@;
    if s.len() > 0 {
        let rest = sorted(before, s.drop_first());
        lemma_sorted_views(before, before_views, s.drop_first());
        assert(s.map_values(view).drop_first() =~= s.drop_first().map_values(view));
        lemma_slot_views(before, before_views, rest, s[0]);
        lemma_slot_bound(before, rest, s[0]);
    }
}

proof fn lemma_slot_views<T: View>(
    before: spec_fn(T, T) -> bool,
    before_views: spec_fn(T::V, T::V) -> bool,
    s: Seq<T>,
    x: T,
)
    requires
        forall|a: T, b: T| #[trigger] before(a, b) == before_views(a@, b@),
    ensures
        slot(before, s, x) == slot(before_views, s.map_values(|y: T| y@), x@),
    decreases s.len(),
{
    let view = |y: T| y@;
    if s.len() > 0 {
        lemma_slot_views(before, before_views, s.drop_first(), x);
        assert(s.map_values(view).drop_first() =~= s.drop_first().map_values(view));
    }
}

/// Nothing is left of a sequence none of whose elements pass the filter.
proof fn lemma_filter_none<T>(s: Seq<T>, p: spec_fn(T) -> bool)
    requires
        forall|i: int| 0 <= i < s.len() ==> !p(#[trigger] s[i]),
    ensures
        s.filter(p) == Seq::<T>::empty(),
    decreases s.len(),
{
    reveal(Seq::filter);
    if s.len() > 0 {
        lemma_filter_none(s.drop_last(), p);
    }
}

/// Sorts by a rule, keeping tied elements in the order in which they came.
pub fn sort_by<T, C: Precedence<T>>(rule: &C, items: Vec<T>) -> (r: Vec<T>)
    requires
        forall|i: int| 0 <= i < items@.len() ==> rule.covers(#[trigger] items@[i]),
    ensures
        r@ == sorted(rule.order(), items@),
{
    let mut items = items;
    let ghost all = items@;
    let mut result: Vec<T> = Vec::new();
    while items.len() > 0
        invariant
            items@.len() <= all.len(),
            forall|i: int| 0 <= i < all.len() ==> rule.covers(#[trigger] all[i]),
            forall|i: int| 0 <= i < result@.len() ==> rule.covers(#[trigger] result@[i]),
            items@ =~= all.take(items@.len() as int),
            result@ == sorted(rule.order(), all.skip(items@.len() as int)),
        decreases items@.len(),
    {
        let ghost suffix = all.skip(items@.len() - 1);
        proof {
            assert(suffix.drop_first() =~= all.skip(items@.len() as int));
        }
        let popped = items.pop();
        if let Some(x) = popped {
            let mut k: usize = 0;
            assert(result@.skip(0) =~= result@);
            while k < result.len() && rule.precedes(&result[k], &x)
                invariant
                    k <= result@.len(),
                    rule.covers(x),
                    forall|i: int| 0 <= i < result@.len() ==> rule.covers(#[trigger] result@[i]),
                    slot(rule.order(), result@, x) == k + slot(rule.order(), result@.skip(k as int), x),
                decreases result@.len() - k,
            {
                assert(result@.skip(k as int).drop_first() =~= result@.skip(k + 1));
                k = k + 1;
            }
            result.insert(k, x);
        }
    }
    result
}

} // verus!
