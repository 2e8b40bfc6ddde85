//! Stable insertion order: what sorting a sequence by a strict "comes
//! before" relation gives, with ties kept in the order they came in.
use vstd::prelude::*;

verus! {

/// Inserts `x` into `s` after every element that `x` does not come before.
pub open spec fn insert_by<T>(s: Seq<T>, x: T, before: spec_fn(T, T) -> bool) -> Seq<T>
    decreases s.len(),
{
    if s.len() == 0 {
        seq![x]
    } else if before(x, s.last()) {
        insert_by(s.drop_last(), x, before).push(s.last())
    } else {
        s.push(x)
    }
}

/// The stable sort of `s`: each element is inserted, in order, after the
/// elements it does not come before.
pub open spec fn sort_by_spec<T>(s: Seq<T>, before: spec_fn(T, T) -> bool) -> Seq<T>
    decreases s.len(),
{
    if s.len() == 0 {
        s
    } else {
        insert_by(sort_by_spec(s.drop_last(), before), s.last(), before)
    }
}

/// `before` is asymmetric and "does not come before" is transitive.
pub open spec fn strict_weak_order<T>(before: spec_fn(T, T) -> bool) -> bool {
    &&& forall|a: T, b: T| #[trigger] before(a, b) ==> !before(b, a)
    &&& forall|a: T, b: T, c: T|
        !#[trigger] before(a, b) && !#[trigger] before(b, c) ==> !#[trigger] before(a, c)
}

/// No element comes before an earlier one.
pub open spec fn sorted_by<T>(s: Seq<T>, before: spec_fn(T, T) -> bool) -> bool {
    forall|i: int, j: int| 0 <= i < j < s.len() ==> !before(#[trigger] s[j], #[trigger] s[i])
}

/// Inserting at the place that the search from the end finds.
pub proof fn lemma_insert_by_at<T>(s: Seq<T>, x: T, before: spec_fn(T, T) -> bool, j: int)
    requires
        0 <= j <= s.len(),
        forall|k: int| j <= k < s.len() ==> before(x, #[trigger] s[k]),
        j == 0 || !before(x, s[j - 1]),
    ensures
        insert_by(s, x, before) == s.insert(j, x),
    decreases s.len(),
{
    if s.len() == 0 {
        assert(s.insert(j, x) =~= seq![x]);
    } else if before(x, s.last()) {
        lemma_insert_by_at(s.drop_last(), x, before, j);
        assert(s.drop_last().insert(j, x).push(s.last()) =~= s.insert(j, x));
    } else {
        assert(j == s.len());
        assert(s.push(x) =~= s.insert(j, x));
    }
}

/// Inserting adds exactly one element.
pub proof fn lemma_insert_by_multiset<T>(s: Seq<T>, x: T, before: spec_fn(T, T) -> bool)
    ensures
        insert_by(s, x, before).to_multiset() =~= s.to_multiset().insert(x),
        insert_by(s, x, before).len() == s.len() + 1,
    decreases s.len(),
{
    broadcast use vstd::seq_lib::group_to_multiset_ensures, vstd::multiset::group_multiset_axioms;

    if s.len() == 0 {
        assert(seq![x] =~= s.push(x));
    } else if before(x, s.last()) {
        lemma_insert_by_multiset(s.drop_last(), x, before);
        assert(s =~= s.drop_last().push(s.last()));
    }
}

/// Sorting keeps the elements, each as many times.
pub proof fn lemma_sort_by_multiset<T>(s: Seq<T>, before: spec_fn(T, T) -> bool)
    ensures
        sort_by_spec(s, before).to_multiset() =~= s.to_multiset(),
        sort_by_spec(s, before).len() == s.len(),
    decreases s.len(),
{
    broadcast use vstd::seq_lib::group_to_multiset_ensures;

    if s.len() > 0 {
        lemma_sort_by_multiset(s.drop_last(), before);
        lemma_insert_by_multiset(sort_by_spec(s.drop_last(), before), s.last(), before);
        assert(s =~= s.drop_last().push(s.last()));
    }
}

/// An element of an insertion is the inserted element or one of the sequence.
pub proof fn lemma_insert_by_contains<T>(s: Seq<T>, x: T, before: spec_fn(T, T) -> bool, k: int)
    requires
        0 <= k < insert_by(s, x, before).len(),
    ensures
        insert_by(s, x, before)[k] == x || s.contains(insert_by(s, x, before)[k]),
{
    broadcast use vstd::seq_lib::group_to_multiset_ensures, vstd::multiset::group_multiset_axioms;

    lemma_insert_by_multiset(s, x, before);
    let r = insert_by(s, x, before);
    let e = r[k];
    assert(r.contains(e));
    assert(r.to_multiset().count(e) > 0);
    assert(s.to_multiset().insert(x).count(e) > 0);
    if e != x {
        assert(s.to_multiset().count(e) > 0);
    }
}

/// Inserting into a sorted sequence keeps it sorted.
pub proof fn lemma_insert_by_sorted<T>(s: Seq<T>, x: T, before: spec_fn(T, T) -> bool)
    requires
        strict_weak_order(before),
        sorted_by(s, before),
    ensures
        sorted_by(insert_by(s, x, before), before),
    decreases s.len(),
{
    if s.len() == 0 {
    } else if before(x, s.last()) {
        let d = s.drop_last();
        assert(sorted_by(d, before));
        lemma_insert_by_sorted(d, x, before);
        let r0 = insert_by(d, x, before);
        lemma_insert_by_multiset(d, x, before);
        assert forall|i: int| 0 <= i < r0.len() implies !before(s.last(), #[trigger] r0[i]) by {
            lemma_insert_by_contains(d, x, before, i);
            if r0[i] != x {
                let k = choose|k: int| 0 <= k < d.len() && d[k] == r0[i];
                assert(s[k] == d[k]);
                assert(!before(s[s.len() - 1], s[k]));
            }
        }
        let r = r0.push(s.last());
        assert forall|i: int, j: int| 0 <= i < j < r.len() implies !before(#[trigger] r[j], #[trigger] r[i]) by {
            if j < r0.len() {
                assert(r[j] == r0[j] && r[i] == r0[i]);
            } else {
                assert(r[i] == r0[i]);
            }
        }
    } else {
        let r = s.push(x);
        assert forall|i: int, j: int| 0 <= i < j < r.len() implies !before(#[trigger] r[j], #[trigger] r[i]) by {
            if j < s.len() {
                assert(r[j] == s[j] && r[i] == s[i]);
            } else if i < s.len() - 1 {
                assert(!before(s[s.len() - 1], s[i]));
                assert(!before(x, s[s.len() - 1]));
            }
        }
    }
}

/// Sorting gives a sorted sequence.
pub proof fn lemma_sort_by_sorted<T>(s: Seq<T>, before: spec_fn(T, T) -> bool)
    requires
        strict_weak_order(before),
    ensures
        sorted_by(sort_by_spec(s, before), before),
    decreases s.len(),
{
    if s.len() > 0 {
        lemma_sort_by_sorted(s.drop_last(), before);
        lemma_insert_by_sorted(sort_by_spec(s.drop_last(), before), s.last(), before);
    }
}

} // verus!
