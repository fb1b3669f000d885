//! Stable insertion order: the definition of the sorted lists the broker
//! answers with, and its laws.
use vstd::prelude::*;

verus! {

/// `s` with `x` placed just after the last element that `x` does not come
/// strictly before (walking from the back), so that equal elements keep
/// their order.
pub open spec fn insert_stable<T>(s: Seq<T>, x: T, before: spec_fn(T, T) -> bool) -> Seq<T>
    decreases s.len(),
{
    if s.len() == 0 {
        seq![x]
    } else if before(x, s.last()) {
        insert_stable(s.drop_last(), x, before).push(s.last())
    } else {
        s.push(x)
    }
}

/// `s` in stable order: each element in turn placed into the order of
/// those before it.
pub open spec fn sort_stable<T>(s: Seq<T>, before: spec_fn(T, T) -> bool) -> Seq<T>
    decreases s.len(),
{
    if s.len() == 0 {
        seq![]
    } else {
        insert_stable(sort_stable(s.drop_last(), before), s.last(), before)
    }
}

/// No element of `s` comes strictly before an element ahead of it.
pub open spec fn sorted_by<T>(s: Seq<T>, before: spec_fn(T, T) -> bool) -> bool {
    forall|i: int, j: int| 0 <= i < j < s.len() ==> !before(#[trigger] s[j], #[trigger] s[i])
}

/// `before` is a strict weak order: asymmetric, and "not before" is
/// transitive.
pub open spec fn strict_weak_order<T>(before: spec_fn(T, T) -> bool) -> bool {
    &&& forall|a: T, b: T| #[trigger] before(a, b) ==> !before(b, a)
    &&& forall|a: T, b: T, c: T|
        #![trigger before(a, b), before(b, c)]
        #![trigger before(a, b), before(a, c)]
        #![trigger before(b, c), before(a, c)]
        !before(a, b) && !before(b, c) ==> !before(a, c)
}

/// Placing `x` at position `k` of `s` is what `insert_stable` does when
/// `x` comes strictly before every element from `k` on and not before the
/// one just ahead of `k`.
pub proof fn lemma_insert_stable_at<T>(s: Seq<T>, x: T, before: spec_fn(T, T) -> bool, k: int)
    requires
        0 <= k <= s.len(),
        forall|m: int| k <= m < s.len() ==> before(x, #[trigger] s[m]),
        k > 0 ==> !before(x, s[k - 1]),
    ensures
        insert_stable(s, x, before) == s.insert(k, x),
    decreases s.len(),
{
    if s.len() == 0 {
        assert(s.insert(k, x) =~= seq![x]);
    } else if k == s.len() {
        assert(s.insert(k, x) =~= s.push(x));
    } else {
        assert(before(x, s[s.len() - 1]));
        lemma_insert_stable_at(s.drop_last(), x, before, k);
        assert(s.drop_last().insert(k, x).push(s.last()) =~= s.insert(k, x));
    }
}

/// Placing an element keeps all elements, and adds it once.
pub proof fn lemma_insert_stable_multiset<T>(s: Seq<T>, x: T, before: spec_fn(T, T) -> bool)
    ensures
        insert_stable(s, x, before).to_multiset() == s.to_multiset().insert(x),
    decreases s.len(),
{
    broadcast use vstd::seq_lib::group_to_multiset_ensures;

    if s.len() == 0 {
        assert(seq![x] =~= Seq::<T>::empty().push(x));
    } else if before(x, s.last()) {
        lemma_insert_stable_multiset(s.drop_last(), x, before);
        assert(s =~= s.drop_last().push(s.last()));
        assert(s.drop_last().to_multiset().insert(x).insert(s.last())
            =~= s.drop_last().to_multiset().insert(s.last()).insert(x));
    }
}

/// The stable order holds the same elements, as often, as the list.
pub proof fn lemma_sort_stable_permutation<T>(s: Seq<T>, before: spec_fn(T, T) -> bool)
    ensures
        sort_stable(s, before).to_multiset() == s.to_multiset(),
    decreases s.len(),
{
    broadcast use vstd::seq_lib::group_to_multiset_ensures;

    if s.len() > 0 {
        lemma_sort_stable_permutation(s.drop_last(), before);
        lemma_insert_stable_multiset(sort_stable(s.drop_last(), before), s.last(), before);
        assert(s =~= s.drop_last().push(s.last()));
    }
}

/// Placing an element into a sorted list keeps it sorted, and every element
/// of the result is `x` or one of `s`.
pub proof fn lemma_insert_stable_sorted<T>(s: Seq<T>, x: T, before: spec_fn(T, T) -> bool)
    requires
        strict_weak_order(before),
        sorted_by(s, before),
    ensures
        sorted_by(insert_stable(s, x, before), before),
        insert_stable(s, x, before).len() == s.len() + 1,
        insert_stable(s, x, before).last() == x || (s.len() > 0 && insert_stable(s, x, before).last()
            == s.last()),
    decreases s.len(),
{
    if s.len() == 0 {
    } else if before(x, s.last()) {
        let t = s.drop_last();
        lemma_insert_stable_sorted(t, x, before);
        let r = insert_stable(t, x, before);
        let out = r.push(s.last());
        assert forall|i: int, j: int| 0 <= i < j < out.len() implies !before(#[trigger] out[j], #[trigger] out[i]) by {
            if j == out.len() - 1 {
                // every element of r is x or an element of t, all of which
                // the last element of s does not come strictly before
                lemma_insert_stable_members(t, x, before, i);
            }
        }
    } else {
        let out = s.push(x);
        assert forall|i: int, j: int| 0 <= i < j < out.len() implies !before(#[trigger] out[j], #[trigger] out[i]) by {
            if j == out.len() - 1 && i < s.len() - 1 {
                assert(!before(s[s.len() - 1], s[i]));
            }
        }
    }
}

/// An element of `insert_stable(s, x)` is `x` or an element of `s`.
pub proof fn lemma_insert_stable_members<T>(s: Seq<T>, x: T, before: spec_fn(T, T) -> bool, i: int)
    requires
        0 <= i < s.len() + 1,
    ensures
        insert_stable(s, x, before).len() == s.len() + 1,
        insert_stable(s, x, before)[i] == x || exists|m: int| 0 <= m < s.len() && insert_stable(s, x, before)[i] == s[m],
    decreases s.len(),
{
    if s.len() == 0 {
    } else if before(x, s.last()) {
        let t = s.drop_last();
        if i < s.len() {
            lemma_insert_stable_members(t, x, before, i);
            let r = insert_stable(t, x, before);
            if r[i] != x {
                let m = choose|m: int| 0 <= m < t.len() && r[i] == t[m];
                assert(s[m] == t[m]);
            }
        } else {
            lemma_insert_stable_members(t, x, before, 0);
            assert(insert_stable(s, x, before)[i] == s[s.len() - 1]);
        }
    } else {
        if i < s.len() {
            assert(insert_stable(s, x, before)[i] == s[i]);
        }
    }
}

/// The stable order of a list is sorted when `before` is a strict weak
/// order.
pub proof fn lemma_sort_stable_sorted<T>(s: Seq<T>, before: spec_fn(T, T) -> bool)
    requires
        strict_weak_order(before),
    ensures
        sorted_by(sort_stable(s, before), before),
        sort_stable(s, before).len() == s.len(),
    decreases s.len(),
{
    if s.len() > 0 {
        lemma_sort_stable_sorted(s.drop_last(), before);
        lemma_insert_stable_sorted(sort_stable(s.drop_last(), before), s.last(), before);
    }
}

} // verus!
