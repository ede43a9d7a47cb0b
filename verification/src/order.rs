//! A stable insertion sort over an arbitrary ordering discipline.
//!
//! The discipline is a comparator, not a key: an element is moved left past
//! exactly those elements that `comes_after` it, so elements the comparator
//! does not separate keep their relative order. `sort_ordered` is the exact
//! functional description of the sort, and `insertion_sort` is the
//! executable form, proved to return precisely `sort_ordered` of its input.

use vstd::prelude::*;

verus! {

/// An ordering discipline: `a.comes_after(b)` says that `a` must be placed
/// after `b` when the two are compared, and that `a` moves past `b` when `a`
/// is inserted from the right. Elements that do not come after one another
/// keep their relative order.
pub trait SortOrder: Sized {
    spec fn comes_after(self, other: Self) -> bool;

    fn check_comes_after(&self, other: &Self) -> (r: bool)
        ensures
            r == self.comes_after(*other),
    ;
}

/// `x` placed into `s`, moving left from the end past every element that
/// comes after it, stopping at the first that does not.
pub open spec fn insert_ordered<T: SortOrder>(s: Seq<T>, x: T) -> Seq<T>
    decreases s.len(),
{
    if s.len() == 0 {
        seq![x]
    } else if s.last().comes_after(x) {
        insert_ordered(s.drop_last(), x).push(s.last())
    } else {
        s.push(x)
    }
}

/// The stable insertion sort of `s`: each element in turn is placed into the
/// sorted prefix by `insert_ordered`.
pub open spec fn sort_ordered<T: SortOrder>(s: Seq<T>) -> Seq<T>
    decreases s.len(),
{
    if s.len() == 0 {
        Seq::<T>::empty()
    } else {
        insert_ordered(sort_ordered(s.drop_last()), s.last())
    }
}

/// The weights of the elements of `s` never decrease from left to right.
pub open spec fn weight_sorted<T>(s: Seq<T>, w: spec_fn(T) -> int) -> bool {
    forall|i: int, j: int| 0 <= i < j < s.len() ==> w(s[i]) <= w(s[j])
}

/// How many elements of `s` satisfy `p`.
pub open spec fn count_matching<T>(s: Seq<T>, p: spec_fn(T) -> bool) -> nat
    decreases s.len(),
{
    if s.len() == 0 {
        0
    } else {
        count_matching(s.drop_last(), p) + (if p(s.last()) {
            1nat
        } else {
            0nat
        })
    }
}

proof fn lemma_insert_ordered_len<T: SortOrder>(s: Seq<T>, x: T)
    ensures
        insert_ordered(s, x).len() == s.len() + 1,
    decreases s.len(),
{
    if s.len() > 0 && s.last().comes_after(x) {
        lemma_insert_ordered_len(s.drop_last(), x);
    }
}

pub proof fn lemma_sort_ordered_len<T: SortOrder>(s: Seq<T>)
    ensures
        sort_ordered(s).len() == s.len(),
    decreases s.len(),
{
    if s.len() > 0 {
        lemma_sort_ordered_len(s.drop_last());
        lemma_insert_ordered_len(sort_ordered(s.drop_last()), s.last());
    }
}

/// Where `insert_ordered` puts the new element: if everything from position
/// `p` on comes after `x`, and the element just before `p` (if any) does
/// not, then `x` lands exactly at position `p`.
proof fn lemma_insert_ordered_at<T: SortOrder>(s: Seq<T>, x: T, p: int)
    requires
        0 <= p <= s.len(),
        forall|k: int| p <= k < s.len() ==> (#[trigger] s[k]).comes_after(x),
        p > 0 ==> !s[p - 1].comes_after(x),
    ensures
        insert_ordered(s, x) == s.subrange(0, p) + seq![x] + s.subrange(p, s.len() as int),
    decreases s.len(),
{
    if s.len() == 0 {
        assert(insert_ordered(s, x) =~= s.subrange(0, p) + seq![x] + s.subrange(p, 0));
    } else if p == s.len() {
        assert(!s.last().comes_after(x));
        assert(insert_ordered(s, x) =~= s.subrange(0, p) + seq![x] + s.subrange(p, p));
    } else {
        assert(s[s.len() - 1].comes_after(x));
        let dl = s.drop_last();
        assert(forall|k: int| p <= k < dl.len() ==> (#[trigger] dl[k]).comes_after(x));
        assert(p > 0 ==> !dl[p - 1].comes_after(x));
        lemma_insert_ordered_at(dl, x, p);
        assert(insert_ordered(s, x) =~= s.subrange(0, p) + seq![x] + s.subrange(
            p,
            s.len() as int,
        ));
    }
}

/// Every element of the insertion result is either `x` or an element of `s`.
proof fn lemma_insert_ordered_contains<T: SortOrder>(s: Seq<T>, x: T)
    ensures
        forall|i: int|
            0 <= i < insert_ordered(s, x).len() ==> (insert_ordered(s, x)[i] == x || s.contains(
                insert_ordered(s, x)[i],
            )),
    decreases s.len(),
{
    if s.len() == 0 {
    } else if s.last().comes_after(x) {
        let dl = s.drop_last();
        lemma_insert_ordered_contains(dl, x);
        assert forall|i: int| 0 <= i < insert_ordered(s, x).len() implies (insert_ordered(s, x)[i]
            == x || s.contains(insert_ordered(s, x)[i])) by {
            let t = insert_ordered(dl, x);
            if i < t.len() {
                if t[i] != x {
                    let k = choose|k: int| 0 <= k < dl.len() && dl[k] == t[i];
                    assert(s[k] == t[i]);
                }
            } else {
                assert(insert_ordered(s, x)[i] == s.last());
                assert(s[s.len() - 1] == s.last());
            }
        }
    } else {
        assert forall|i: int| 0 <= i < insert_ordered(s, x).len() implies (insert_ordered(s, x)[i]
            == x || s.contains(insert_ordered(s, x)[i])) by {
            if i < s.len() {
                assert(s[i] == insert_ordered(s, x)[i]);
            }
        }
    }
}

/// Insertion adds exactly the new element to the multiset of elements.
proof fn lemma_insert_ordered_multiset<T: SortOrder>(s: Seq<T>, x: T)
    ensures
        insert_ordered(s, x).to_multiset() == s.to_multiset().insert(x),
    decreases s.len(),
{
    broadcast use vstd::seq_lib::group_to_multiset_ensures;

    if s.len() == 0 {
        assert(seq![x] =~= Seq::<T>::empty().push(x));
        assert(s =~= Seq::<T>::empty());
    } else if s.last().comes_after(x) {
        let dl = s.drop_last();
        lemma_insert_ordered_multiset(dl, x);
        assert(s =~= dl.push(s.last()));
        assert(dl.to_multiset().insert(x).insert(s.last()) =~= dl.to_multiset().insert(
            s.last(),
        ).insert(x));
    } else {
    }
}

/// Sorting permutes the elements: the multiset of elements is unchanged.
pub proof fn lemma_sort_ordered_multiset<T: SortOrder>(s: Seq<T>)
    ensures
        sort_ordered(s).to_multiset() == s.to_multiset(),
    decreases s.len(),
{
    broadcast use vstd::seq_lib::group_to_multiset_ensures;

    if s.len() > 0 {
        let dl = s.drop_last();
        lemma_sort_ordered_multiset(dl);
        lemma_insert_ordered_multiset(sort_ordered(dl), s.last());
        assert(s =~= dl.push(s.last()));
    }
}

/// If the comparator respects a weight function (whatever comes after
/// weighs at least as much, whatever does not weighs at most as much),
/// insertion keeps the weights sorted.
proof fn lemma_insert_ordered_weight_sorted<T: SortOrder>(s: Seq<T>, x: T, w: spec_fn(T) -> int)
    requires
        forall|a: T, b: T| #[trigger] a.comes_after(b) ==> w(a) >= w(b),
        forall|a: T, b: T| !(#[trigger] a.comes_after(b)) ==> w(a) <= w(b),
        weight_sorted(s, w),
    ensures
        weight_sorted(insert_ordered(s, x), w),
    decreases s.len(),
{
    if s.len() == 0 {
    } else if s.last().comes_after(x) {
        let dl = s.drop_last();
        assert(weight_sorted(dl, w)) by {
            assert(forall|i: int, j: int|
                0 <= i < j < dl.len() ==> w(#[trigger] dl[i]) <= w(#[trigger] dl[j])) by {
                assert(forall|k: int| 0 <= k < dl.len() ==> dl[k] == s[k]);
            }
        }
        lemma_insert_ordered_weight_sorted(dl, x, w);
        lemma_insert_ordered_contains(dl, x);
        lemma_insert_ordered_len(dl, x);
        let t = insert_ordered(dl, x);
        assert forall|i: int, j: int|
            0 <= i < j < insert_ordered(s, x).len() implies w(insert_ordered(s, x)[i]) <= w(
            insert_ordered(s, x)[j],
        ) by {
            if j < t.len() {
            } else {
                // j is the reattached last element of s
                assert(insert_ordered(s, x)[j] == s.last());
                assert(insert_ordered(s, x)[i] == t[i]);
                if t[i] == x {
                    // s.last() comes after x, so x weighs no more
                    assert(w(x) <= w(s.last()));
                } else {
                    let k = choose|k: int| 0 <= k < dl.len() && dl[k] == t[i];
                    assert(w(s[k]) <= w(s[s.len() - 1]));
                }
            }
        }
    } else {
        assert forall|i: int, j: int|
            0 <= i < j < insert_ordered(s, x).len() implies w(insert_ordered(s, x)[i]) <= w(
            insert_ordered(s, x)[j],
        ) by {
            if j < s.len() {
            } else {
                assert(insert_ordered(s, x)[j] == x);
                assert(w(s.last()) <= w(x));
                if i < s.len() - 1 {
                    assert(w(s[i]) <= w(s[s.len() - 1]));
                }
            }
        }
    }
}

/// Sorting leaves the weights of a comparator-respecting weight function in
/// non-decreasing order.
pub proof fn lemma_sort_ordered_weight_sorted<T: SortOrder>(s: Seq<T>, w: spec_fn(T) -> int)
    requires
        forall|a: T, b: T| #[trigger] a.comes_after(b) ==> w(a) >= w(b),
        forall|a: T, b: T| !(#[trigger] a.comes_after(b)) ==> w(a) <= w(b),
    ensures
        weight_sorted(sort_ordered(s), w),
    decreases s.len(),
{
    if s.len() > 0 {
        lemma_sort_ordered_weight_sorted(s.drop_last(), w);
        lemma_insert_ordered_weight_sorted(sort_ordered(s.drop_last()), s.last(), w);
    }
}

/// No element comes after its successor.
pub open spec fn adjacent_ordered<T: SortOrder>(s: Seq<T>) -> bool {
    forall|i: int| 0 <= i < s.len() - 1 ==> !(#[trigger] s[i]).comes_after(s[i + 1])
}

/// When the comparator is asymmetric, insertion keeps the sequence free of
/// elements that come after their successors.
proof fn lemma_insert_ordered_adjacent<T: SortOrder>(s: Seq<T>, x: T)
    requires
        forall|a: T, b: T| #[trigger] a.comes_after(b) ==> !b.comes_after(a),
        adjacent_ordered(s),
    ensures
        adjacent_ordered(insert_ordered(s, x)),
    decreases s.len(),
{
    lemma_insert_ordered_len(s, x);
    if s.len() == 0 {
    } else if s.last().comes_after(x) {
        let dl = s.drop_last();
        assert(adjacent_ordered(dl)) by {
            assert(forall|k: int| 0 <= k < dl.len() ==> dl[k] == s[k]);
        }
        lemma_insert_ordered_adjacent(dl, x);
        lemma_insert_ordered_len(dl, x);
        let t = insert_ordered(dl, x);
        assert(!t.last().comes_after(s.last())) by {
            if dl.len() == 0 {
                assert(t.last() == x);
            } else if dl.last().comes_after(x) {
                assert(t.last() == dl.last());
                assert(dl.last() == s[s.len() - 2]);
                assert(!s[s.len() - 2].comes_after(s[s.len() - 1]));
            } else {
                assert(t.last() == x);
            }
        }
        assert forall|i: int| 0 <= i < insert_ordered(s, x).len() - 1 implies !(
        #[trigger] insert_ordered(s, x)[i]).comes_after(insert_ordered(s, x)[i + 1]) by {
            if i + 1 < t.len() {
                assert(insert_ordered(s, x)[i] == t[i]);
                assert(insert_ordered(s, x)[i + 1] == t[i + 1]);
            } else {
                assert(insert_ordered(s, x)[i] == t[t.len() - 1]);
                assert(insert_ordered(s, x)[i + 1] == s.last());
            }
        }
    } else {
        assert forall|i: int| 0 <= i < insert_ordered(s, x).len() - 1 implies !(
        #[trigger] insert_ordered(s, x)[i]).comes_after(insert_ordered(s, x)[i + 1]) by {
            if i + 1 < s.len() {
                assert(insert_ordered(s, x)[i] == s[i]);
                assert(insert_ordered(s, x)[i + 1] == s[i + 1]);
            } else {
                assert(insert_ordered(s, x)[i] == s.last());
                assert(insert_ordered(s, x)[i + 1] == x);
            }
        }
    }
}

/// When the comparator is asymmetric, the sort leaves no element that
/// comes after its successor.
pub proof fn lemma_sort_ordered_adjacent<T: SortOrder>(s: Seq<T>)
    requires
        forall|a: T, b: T| #[trigger] a.comes_after(b) ==> !b.comes_after(a),
    ensures
        adjacent_ordered(sort_ordered(s)),
    decreases s.len(),
{
    if s.len() > 0 {
        lemma_sort_ordered_adjacent(s.drop_last());
        lemma_insert_ordered_adjacent(sort_ordered(s.drop_last()), s.last());
    }
}

/// A sequence with no element coming after its successor is already what
/// the sort returns: the sort is a fixpoint there.
pub proof fn lemma_sort_of_ordered<T: SortOrder>(s: Seq<T>)
    requires
        adjacent_ordered(s),
    ensures
        sort_ordered(s) == s,
    decreases s.len(),
{
    if s.len() == 0 {
        assert(sort_ordered(s) =~= s);
    } else {
        let dl = s.drop_last();
        assert(adjacent_ordered(dl)) by {
            assert(forall|k: int| 0 <= k < dl.len() ==> dl[k] == s[k]);
        }
        lemma_sort_of_ordered(dl);
        if dl.len() == 0 {
            assert(insert_ordered(dl, s.last()) =~= s);
        } else {
            assert(!dl.last().comes_after(s.last())) by {
                assert(dl.last() == s[s.len() - 2]);
                assert(!s[s.len() - 2].comes_after(s[s.len() - 1]));
            }
            assert(insert_ordered(dl, s.last()) == dl.push(s.last()));
            assert(dl.push(s.last()) =~= s);
        }
    }
}

proof fn lemma_count_matching_push<T>(s: Seq<T>, p: spec_fn(T) -> bool, x: T)
    ensures
        count_matching(s.push(x), p) == count_matching(s, p) + (if p(x) {
            1nat
        } else {
            0nat
        }),
{
    assert(s.push(x).drop_last() =~= s);
    assert(s.push(x).last() == x);
}

/// Insertion adds one match when the new element matches, none otherwise.
proof fn lemma_insert_ordered_count<T: SortOrder>(s: Seq<T>, x: T, p: spec_fn(T) -> bool)
    ensures
        count_matching(insert_ordered(s, x), p) == count_matching(s, p) + (if p(x) {
            1nat
        } else {
            0nat
        }),
    decreases s.len(),
{
    if s.len() == 0 {
        lemma_count_matching_push(Seq::<T>::empty(), p, x);
        assert(seq![x] =~= Seq::<T>::empty().push(x));
    } else if s.last().comes_after(x) {
        let dl = s.drop_last();
        lemma_insert_ordered_count(dl, x, p);
        lemma_count_matching_push(insert_ordered(dl, x), p, s.last());
    } else {
        lemma_count_matching_push(s, p, x);
    }
}

/// Sorting does not change how many elements match a predicate.
pub proof fn lemma_sort_ordered_count<T: SortOrder>(s: Seq<T>, p: spec_fn(T) -> bool)
    ensures
        count_matching(sort_ordered(s), p) == count_matching(s, p),
    decreases s.len(),
{
    if s.len() > 0 {
        let dl = s.drop_last();
        lemma_sort_ordered_count(dl, p);
        lemma_insert_ordered_count(sort_ordered(dl), s.last(), p);
    }
}

/// A matching element at any position makes the count at least one.
proof fn lemma_count_matching_at_least_one<T>(s: Seq<T>, p: spec_fn(T) -> bool, i: int)
    requires
        0 <= i < s.len(),
        p(s[i]),
    ensures
        count_matching(s, p) >= 1,
    decreases s.len(),
{
    if i < s.len() - 1 {
        assert(s.drop_last()[i] == s[i]);
        lemma_count_matching_at_least_one(s.drop_last(), p, i);
    }
}

/// A positive count yields a matching position.
pub proof fn lemma_count_matching_exists<T>(s: Seq<T>, p: spec_fn(T) -> bool)
    requires
        count_matching(s, p) >= 1,
    ensures
        exists|i: int| 0 <= i < s.len() && p(#[trigger] s[i]),
    decreases s.len(),
{
    if p(s.last()) {
        assert(0 <= s.len() - 1 < s.len() && p(s[s.len() - 1]));
    } else {
        lemma_count_matching_exists(s.drop_last(), p);
        let i = choose|i: int| 0 <= i < s.drop_last().len() && p(#[trigger] s.drop_last()[i]);
        assert(s[i] == s.drop_last()[i]);
    }
}

/// Two matching elements at distinct positions make the count at least two.
pub proof fn lemma_count_matching_at_least_two<T>(s: Seq<T>, p: spec_fn(T) -> bool, i: int, j: int)
    requires
        0 <= i < j < s.len(),
        p(s[i]),
        p(s[j]),
    ensures
        count_matching(s, p) >= 2,
    decreases s.len(),
{
    if j == s.len() - 1 {
        assert(s.drop_last()[i] == s[i]);
        lemma_count_matching_at_least_one(s.drop_last(), p, i);
    } else {
        assert(s.drop_last()[i] == s[i]);
        assert(s.drop_last()[j] == s[j]);
        lemma_count_matching_at_least_two(s.drop_last(), p, i, j);
    }
}

/// Replacing an element with one that matches the predicate alike leaves the
/// count unchanged.
pub proof fn lemma_count_matching_update<T>(s: Seq<T>, p: spec_fn(T) -> bool, i: int, v: T)
    requires
        0 <= i < s.len(),
        p(v) == p(s[i]),
    ensures
        count_matching(s.update(i, v), p) == count_matching(s, p),
    decreases s.len(),
{
    let t = s.update(i, v);
    if i == s.len() - 1 {
        assert(t.drop_last() =~= s.drop_last());
    } else {
        assert(t.drop_last() =~= s.drop_last().update(i, v));
        assert(t.last() == s.last());
        lemma_count_matching_update(s.drop_last(), p, i, v);
    }
}

/// Removing an element takes away exactly its own contribution to the
/// count.
pub proof fn lemma_count_matching_remove<T>(s: Seq<T>, p: spec_fn(T) -> bool, i: int)
    requires
        0 <= i < s.len(),
    ensures
        count_matching(s.remove(i), p) + (if p(s[i]) {
            1nat
        } else {
            0nat
        }) == count_matching(s, p),
    decreases s.len(),
{
    if i == s.len() - 1 {
        assert(s.remove(i) =~= s.drop_last());
    } else {
        assert(s.remove(i).drop_last() =~= s.drop_last().remove(i));
        assert(s.remove(i).last() == s.last());
        assert(s.drop_last()[i] == s[i]);
        lemma_count_matching_remove(s.drop_last(), p, i);
    }
}

/// Two sequences whose elements match the predicate position for position
/// have the same count.
pub proof fn lemma_count_matching_pointwise<T>(s: Seq<T>, t: Seq<T>, p: spec_fn(T) -> bool)
    requires
        s.len() == t.len(),
        forall|k: int| 0 <= k < s.len() ==> p(#[trigger] s[k]) == p(t[k]),
    ensures
        count_matching(s, p) == count_matching(t, p),
    decreases s.len(),
{
    if s.len() > 0 {
        assert(forall|k: int|
            0 <= k < s.drop_last().len() ==> p(#[trigger] s.drop_last()[k]) == p(
                t.drop_last()[k],
            ));
        lemma_count_matching_pointwise(s.drop_last(), t.drop_last(), p);
    }
}

/// The two sequences have equal length and related elements position for
/// position.
pub open spec fn pointwise_related<T>(s: Seq<T>, t: Seq<T>, r: spec_fn(T, T) -> bool) -> bool {
    s.len() == t.len() && forall|k: int| 0 <= k < s.len() ==> r(#[trigger] s[k], t[k])
}

/// The relation `r` is a congruence for the comparator: related operands
/// compare alike.
pub open spec fn relation_respects_order<T: SortOrder>(r: spec_fn(T, T) -> bool) -> bool {
    forall|a: T, b: T, a2: T, b2: T|
        #![trigger a.comes_after(b), r(a, a2), r(b, b2)]
        r(a, a2) && r(b, b2) ==> a.comes_after(b) == a2.comes_after(b2)
}

/// Inserting related elements into pointwise-related sequences yields
/// pointwise-related results: the sort cannot tell related elements apart.
proof fn lemma_insert_ordered_related<T: SortOrder>(
    s: Seq<T>,
    t: Seq<T>,
    x: T,
    y: T,
    r: spec_fn(T, T) -> bool,
)
    requires
        relation_respects_order::<T>(r),
        pointwise_related(s, t, r),
        r(x, y),
    ensures
        pointwise_related(insert_ordered(s, x), insert_ordered(t, y), r),
    decreases s.len(),
{
    lemma_insert_ordered_len(s, x);
    lemma_insert_ordered_len(t, y);
    if s.len() == 0 {
    } else {
        assert(r(s[s.len() - 1], t[t.len() - 1]));
        assert(s.last().comes_after(x) == t.last().comes_after(y));
        if s.last().comes_after(x) {
            let ds = s.drop_last();
            let dt = t.drop_last();
            assert(pointwise_related(ds, dt, r)) by {
                assert(forall|k: int| 0 <= k < ds.len() ==> ds[k] == s[k] && dt[k] == t[k]);
            }
            lemma_insert_ordered_related(ds, dt, x, y, r);
            assert forall|k: int| 0 <= k < insert_ordered(s, x).len() implies r(
                #[trigger] insert_ordered(s, x)[k],
                insert_ordered(t, y)[k],
            ) by {
                if k < insert_ordered(ds, x).len() {
                    assert(insert_ordered(s, x)[k] == insert_ordered(ds, x)[k]);
                    assert(insert_ordered(t, y)[k] == insert_ordered(dt, y)[k]);
                } else {
                    assert(insert_ordered(s, x)[k] == s.last());
                    assert(insert_ordered(t, y)[k] == t.last());
                }
            }
        } else {
            assert forall|k: int| 0 <= k < insert_ordered(s, x).len() implies r(
                #[trigger] insert_ordered(s, x)[k],
                insert_ordered(t, y)[k],
            ) by {
                if k < s.len() {
                    assert(insert_ordered(s, x)[k] == s[k]);
                    assert(insert_ordered(t, y)[k] == t[k]);
                }
            }
        }
    }
}

/// Sorting pointwise-related sequences yields pointwise-related results.
pub proof fn lemma_sort_ordered_related<T: SortOrder>(s: Seq<T>, t: Seq<T>, r: spec_fn(T, T) -> bool)
    requires
        relation_respects_order::<T>(r),
        pointwise_related(s, t, r),
    ensures
        pointwise_related(sort_ordered(s), sort_ordered(t), r),
    decreases s.len(),
{
    if s.len() > 0 {
        let ds = s.drop_last();
        let dt = t.drop_last();
        assert(pointwise_related(ds, dt, r)) by {
            assert(forall|k: int| 0 <= k < ds.len() ==> ds[k] == s[k] && dt[k] == t[k]);
        }
        lemma_sort_ordered_related(ds, dt, r);
        assert(r(s[s.len() - 1], t[t.len() - 1]));
        lemma_insert_ordered_related(sort_ordered(ds), sort_ordered(dt), s.last(), t.last(), r);
    }
}

/// The index of the first element satisfying `p`, if any.
pub open spec fn first_matching<T>(s: Seq<T>, p: spec_fn(T) -> bool) -> Option<int>
    decreases s.len(),
{
    if s.len() == 0 {
        None
    } else if p(s.first()) {
        Some(0)
    } else {
        match first_matching(s.drop_first(), p) {
            Some(k) => Some(k + 1),
            None => None,
        }
    }
}

/// What `first_matching` returns: a match with nothing matching before it,
/// or nothing at all matching.
pub proof fn lemma_first_matching_props<T>(s: Seq<T>, p: spec_fn(T) -> bool)
    ensures
        match first_matching(s, p) {
            Some(i) => 0 <= i < s.len() && p(s[i]) && forall|m: int|
                0 <= m < i ==> !p(#[trigger] s[m]),
            None => forall|m: int| 0 <= m < s.len() ==> !p(#[trigger] s[m]),
        },
    decreases s.len(),
{
    if s.len() > 0 && !p(s.first()) {
        let d = s.drop_first();
        lemma_first_matching_props(d, p);
        match first_matching(d, p) {
            Some(k) => {
                assert(s[k + 1] == d[k]);
                assert forall|m: int| 0 <= m < k + 1 implies !p(#[trigger] s[m]) by {
                    if m > 0 {
                        assert(d[m - 1] == s[m]);
                        assert(!p(d[m - 1]));
                    }
                }
            },
            None => {
                assert forall|m: int| 0 <= m < s.len() implies !p(#[trigger] s[m]) by {
                    if m > 0 {
                        assert(d[m - 1] == s[m]);
                        assert(!p(d[m - 1]));
                    }
                }
            },
        }
    }
}

/// A match at `i` with nothing matching before it is the first match.
pub proof fn lemma_first_matching_is<T>(s: Seq<T>, p: spec_fn(T) -> bool, i: int)
    requires
        0 <= i < s.len(),
        p(s[i]),
        forall|m: int| 0 <= m < i ==> !p(#[trigger] s[m]),
    ensures
        first_matching(s, p) == Some(i),
    decreases s.len(),
{
    if i == 0 {
    } else {
        assert(!p(s[0]));
        let d = s.drop_first();
        assert(forall|m: int| 0 <= m < d.len() ==> d[m] == s[m + 1]);
        assert(d[i - 1] == s[i]);
        lemma_first_matching_is(d, p, i - 1);
    }
}

/// When nothing matches, there is no first match.
pub proof fn lemma_first_matching_none<T>(s: Seq<T>, p: spec_fn(T) -> bool)
    requires
        forall|m: int| 0 <= m < s.len() ==> !p(#[trigger] s[m]),
    ensures
        first_matching(s, p) is None,
{
    lemma_first_matching_props(s, p);
    if first_matching(s, p) is Some {
        let i = first_matching(s, p)->Some_0;
        assert(!p(s[i]));
    }
}

/// Sorts the vector in place, stably, by the type's ordering discipline:
/// the result is exactly `sort_ordered` of the input, a permutation of it.
pub fn insertion_sort<T: SortOrder>(v: &mut Vec<T>)
    ensures
        final(v)@ == sort_ordered(old(v)@),
        final(v)@.to_multiset() == old(v)@.to_multiset(),
{
    proof {
        lemma_sort_ordered_multiset(v@);
    }
    let ghost orig = v@;
    if v.len() == 0 {
        assert(v@ =~= sort_ordered(orig));
        return ;
    }
    proof {
        let s1 = orig.subrange(0, 1);
        assert(s1.drop_last() =~= Seq::<T>::empty());
        assert(sort_ordered(s1) == insert_ordered(sort_ordered(Seq::<T>::empty()), s1.last()));
        assert(sort_ordered(s1) =~= seq![orig[0]]);
        assert(v@.subrange(0, 1) =~= seq![orig[0]]);
    }
    let mut i: usize = 1;
    while i < v.len()
        invariant
            1 <= i <= v@.len(),
            v@.len() == orig.len(),
            v@.subrange(i as int, v@.len() as int) =~= orig.subrange(i as int, orig.len() as int),
            v@.subrange(0, i as int) == sort_ordered(orig.subrange(0, i as int)),
        decreases v@.len() - i,
    {
        let ghost pre = v@;
        let mut p: usize = i;
        while p > 0 && v[p - 1].check_comes_after(&v[i])
            invariant
                0 <= p <= i < v@.len(),
                v@ == pre,
                forall|k: int| p <= k < i ==> (#[trigger] v@[k]).comes_after(v@[i as int]),
            decreases p,
        {
            p -= 1;
        }
        let x = v.remove(i);
        v.insert(p, x);
        proof {
            let sortp = pre.subrange(0, i as int);
            assert forall|k: int| i as int <= k < pre.len() implies pre[k] == #[trigger] orig[k] by {
                assert(pre.subrange(i as int, pre.len() as int)[k - i] == orig.subrange(
                    i as int,
                    orig.len() as int,
                )[k - i]);
            }
            assert(x == orig[i as int]);
            assert(forall|k: int| p <= k < i ==> (#[trigger] sortp[k]).comes_after(x));
            lemma_insert_ordered_at(sortp, x, p as int);
            assert(v@ == pre.remove(i as int).insert(p as int, x));
            assert(v@ =~= sortp.subrange(0, p as int) + seq![x] + sortp.subrange(p as int, i as int)
                + pre.subrange(i + 1, pre.len() as int));
            assert(v@.subrange(0, i + 1) =~= insert_ordered(sortp, x));
            let next = orig.subrange(0, i + 1);
            assert(next.drop_last() =~= orig.subrange(0, i as int));
            assert(next.last() == orig[i as int]);
            assert(sort_ordered(next) == insert_ordered(sort_ordered(orig.subrange(0, i as int)), x));
            assert(v@.subrange(i + 1, v@.len() as int) =~= orig.subrange(i + 1, orig.len() as int));
        }
        i += 1;
    }
    proof {
        assert(v@ =~= v@.subrange(0, i as int));
        assert(orig =~= orig.subrange(0, i as int));
    }
}

} // verus!
