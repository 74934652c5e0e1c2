//! A collection of sorting algorithms.
//!
//! All of the functions of this module and its child modules sort a mutable
//! slice in place: items are moved around in the given slice itself, not in
//! another one. The direction is given by a flag: `true` sorts in ascending
//! order, `false` in descending order.
//!
//! # Available Algorithms
//! 1. Bubble Sort
//! 2. Selection Sort
//! 3. Insertion Sort
//! 4. Merge Sort
//! 5. Quicksort
//! 6. Timsort

use crate::utils::priority;
use crate::utils::priority::{callable, decides, natural, precedes, weak_order};
use crate::utils::slice::{moved, pos, span, swapped};
use std::cmp::Ordering;
use vstd::prelude::*;
use vstd::std_specs::cmp::OrdSpec;

pub mod bubblesort;
pub mod insertionsort;
pub mod mergesort;
pub mod quicksort;
pub mod selectionsort;
pub mod timsort;

verus! {

/// Every element of `s` may stand before its right neighbour.
pub open spec fn ordered<T>(rel: spec_fn(T, T) -> Ordering, ascending: bool, s: Seq<T>) -> bool {
    forall|i: int| 0 <= i && i + 1 < s.len() ==> precedes(rel, ascending, #[trigger] s[i], s[i + 1])
}

/// Within `lo..hi`, every element of `s` may stand before every later one.
pub open spec fn ordered_between<T>(
    rel: spec_fn(T, T) -> Ordering,
    ascending: bool,
    s: Seq<T>,
    lo: int,
    hi: int,
) -> bool {
    forall|i: int, j: int|
        lo <= i < j < hi ==> precedes(rel, ascending, #[trigger] s[i], #[trigger] s[j])
}

/// The test that an item is of equal rank with `rank`.
pub open spec fn same_rank<T>(rel: spec_fn(T, T) -> Ordering, rank: T) -> spec_fn(T) -> bool {
    |item: T| rel(item, rank) is Equal
}

/// `after` holds the elements of each rank in the order in which `before`
/// holds them.
pub open spec fn keeps_equals_in_order<T>(
    rel: spec_fn(T, T) -> Ordering,
    before: Seq<T>,
    after: Seq<T>,
) -> bool {
    forall|rank: T| #[trigger]
        after.filter(same_rank(rel, rank)) == before.filter(same_rank(rel, rank))
}

/// `after` respects the order that `before` had: it holds the elements of
/// equal rank in the order they had, and is `before` itself if that was
/// ordered.
pub open spec fn respects<T>(
    rel: spec_fn(T, T) -> Ordering,
    ascending: bool,
    before: Seq<T>,
    after: Seq<T>,
) -> bool {
    &&& keeps_equals_in_order(rel, before, after)
    &&& ordered(rel, ascending, before) ==> after == before
}

/// `after` is `before` sorted: it holds the same elements, each as often as
/// before, it is ordered, and it is `before` itself if that was ordered
/// already.
pub open spec fn is_sorting<T>(
    rel: spec_fn(T, T) -> Ordering,
    ascending: bool,
    before: Seq<T>,
    after: Seq<T>,
) -> bool {
    &&& after.len() == before.len()
    &&& after.to_multiset() == before.to_multiset()
    &&& ordered(rel, ascending, after)
    &&& ordered(rel, ascending, before) ==> after == before
}

/// `after` is `before` sorted, with the elements of equal rank in the order
/// they had.
pub open spec fn is_stable_sorting<T>(
    rel: spec_fn(T, T) -> Ordering,
    ascending: bool,
    before: Seq<T>,
    after: Seq<T>,
) -> bool {
    &&& is_sorting(rel, ascending, before, after)
    &&& keeps_equals_in_order(rel, before, after)
}

/// `after` holds the elements of `before`, each as often as before, and is
/// `before` sorted by every weak order that `compare` decides.
pub open spec fn sorts_by<T, F: Fn(
    &T,
    &T,
) -> Ordering>(compare: F, ascending: bool, before: Seq<T>, after: Seq<T>) -> bool {
    &&& after.len() == before.len()
    &&& after.to_multiset() == before.to_multiset()
    &&& forall|rel: spec_fn(T, T) -> Ordering| #[trigger] decides(compare, rel) && weak_order(rel)
        ==> is_sorting(rel, ascending, before, after)
}

/// `after` holds the elements of `before`, each as often as before, and is
/// `before` sorted by every weak order that `compare` decides, with the
/// elements of equal rank in the order they had.
pub open spec fn sorts_stably_by<T, F: Fn(
    &T,
    &T,
) -> Ordering>(compare: F, ascending: bool, before: Seq<T>, after: Seq<T>) -> bool {
    &&& after.len() == before.len()
    &&& after.to_multiset() == before.to_multiset()
    &&& forall|rel: spec_fn(T, T) -> Ordering| #[trigger] decides(compare, rel) && weak_order(rel)
        ==> is_stable_sorting(rel, ascending, before, after)
}

/// Two items of equal rank with a third may stand in either order.
pub proof fn lemma_same_rank_in_order<T>(
    rel: spec_fn(T, T) -> Ordering,
    ascending: bool,
    a: T,
    b: T,
    rank: T,
)
    requires
        weak_order(rel),
        rel(a, rank) is Equal,
        rel(b, rank) is Equal,
    ensures
        precedes(rel, ascending, a, b),
{
    priority::lemma_precedes_total(rel, ascending, b, rank);
    priority::lemma_precedes_transitive(rel, ascending, a, rank, b);
}

/// What a test leaves of a sequence of one element.
pub proof fn lemma_filter_one<T>(item: T, test: spec_fn(T) -> bool)
    ensures
        seq![item].filter(test) == if test(item) {
            seq![item]
        } else {
            Seq::<T>::empty()
        },
{
    reveal_with_fuel(Seq::filter, 2);
    assert(seq![item].drop_last() =~= Seq::<T>::empty());
    assert(Seq::<T>::empty().push(item) =~= seq![item]);
}

/// A test that no element passes leaves nothing of a sequence.
pub proof fn lemma_filter_none<T>(s: Seq<T>, test: spec_fn(T) -> bool)
    requires
        forall|i: int| 0 <= i < s.len() ==> !test(#[trigger] s[i]),
    ensures
        s.filter(test) == Seq::<T>::empty(),
    decreases s.len(),
{
    reveal(Seq::filter);
    if s.len() > 0 {
        lemma_filter_none(s.drop_last(), test);
    }
}

/// Two neighbours that are out of order change places and leave the
/// elements of each rank in their order.
pub proof fn lemma_swap_keeps_equals<T>(
    rel: spec_fn(T, T) -> Ordering,
    ascending: bool,
    s: Seq<T>,
    i: int,
)
    requires
        weak_order(rel),
        0 <= i,
        i + 1 < s.len(),
        !precedes(rel, ascending, s[i], s[i + 1]),
    ensures
        keeps_equals_in_order(rel, s, swapped(s, i, i + 1)),
{
    let t = swapped(s, i, i + 1);
    let front = s.subrange(0, i);
    let pair = s.subrange(i, i + 2);
    let turned = t.subrange(i, i + 2);
    let back = s.subrange(i + 2, span(s));
    crate::utils::slice::lemma_three_pieces(s, i, i + 2);
    crate::utils::slice::lemma_three_pieces(t, i, i + 2);
    assert(t.subrange(0, i) =~= front);
    assert(t.subrange(i + 2, span(t)) =~= back);
    assert(pair =~= seq![s[i]] + seq![s[i + 1]]);
    assert(turned =~= seq![s[i + 1]] + seq![s[i]]);
    assert forall|rank: T| #[trigger]
        t.filter(same_rank(rel, rank)) == s.filter(same_rank(rel, rank)) by {
        let test = same_rank(rel, rank);
        if test(s[i]) && test(s[i + 1]) {
            lemma_same_rank_in_order(rel, ascending, s[i], s[i + 1], rank);
        }
        lemma_filter_one(s[i], test);
        lemma_filter_one(s[i + 1], test);
        Seq::filter_distributes_over_add(seq![s[i]], seq![s[i + 1]], test);
        Seq::filter_distributes_over_add(seq![s[i + 1]], seq![s[i]], test);
        assert(turned.filter(test) =~= pair.filter(test));
        Seq::filter_distributes_over_add(front, pair, test);
        Seq::filter_distributes_over_add(front + pair, back, test);
        Seq::filter_distributes_over_add(front, turned, test);
        Seq::filter_distributes_over_add(front + turned, back, test);
    }
}

/// An element that moves towards the front past elements that must all
/// stand after it leaves the elements of each rank in their order.
pub proof fn lemma_move_keeps_equals<T>(
    rel: spec_fn(T, T) -> Ordering,
    ascending: bool,
    s: Seq<T>,
    from: int,
    to: int,
)
    requires
        weak_order(rel),
        0 <= to <= from < s.len(),
        forall|j: int| to <= j < from ==> !precedes(rel, ascending, #[trigger] s[j], s[from]),
    ensures
        keeps_equals_in_order(rel, s, moved(s, from, to)),
{
    let t = moved(s, from, to);
    let front = s.subrange(0, to);
    let passed = s.subrange(to, from);
    let back = s.subrange(from + 1, span(s));
    crate::utils::slice::lemma_moved_index(s, from, to);
    assert(s =~= front + passed + seq![s[from]] + back);
    assert(t =~= front + seq![s[from]] + passed + back);
    assert forall|rank: T| #[trigger]
        t.filter(same_rank(rel, rank)) == s.filter(same_rank(rel, rank)) by {
        let test = same_rank(rel, rank);
        lemma_filter_one(s[from], test);
        if test(s[from]) {
            assert forall|j: int| 0 <= j < passed.len() implies !test(#[trigger] passed[j]) by {
                if test(passed[j]) {
                    lemma_same_rank_in_order(rel, ascending, s[to + j], s[from], rank);
                }
            }
            lemma_filter_none(passed, test);
        }
        Seq::filter_distributes_over_add(front, passed, test);
        Seq::filter_distributes_over_add(front + passed, seq![s[from]], test);
        Seq::filter_distributes_over_add(front + passed + seq![s[from]], back, test);
        Seq::filter_distributes_over_add(front, seq![s[from]], test);
        Seq::filter_distributes_over_add(front + seq![s[from]], passed, test);
        Seq::filter_distributes_over_add(front + seq![s[from]] + passed, back, test);
        assert(t.filter(test) =~= s.filter(test));
    }
}

/// A part of a sequence that is put in another order which leaves the
/// elements of each rank in their order leaves them so in the sequence.
pub proof fn lemma_part_keeps_equals<T>(
    rel: spec_fn(T, T) -> Ordering,
    s: Seq<T>,
    t: Seq<T>,
    lo: int,
    hi: int,
)
    requires
        0 <= lo <= hi <= s.len(),
        t.len() == s.len(),
        forall|i: int| 0 <= i < lo || hi <= i < s.len() ==> #[trigger] t[i] == s[i],
        keeps_equals_in_order(rel, s.subrange(lo, hi), t.subrange(lo, hi)),
    ensures
        keeps_equals_in_order(rel, s, t),
{
    let front = s.subrange(0, lo);
    let back = s.subrange(hi, span(s));
    assert(s =~= front + s.subrange(lo, hi) + back);
    assert(t =~= front + t.subrange(lo, hi) + back);
    assert forall|rank: T| #[trigger]
        t.filter(same_rank(rel, rank)) == s.filter(same_rank(rel, rank)) by {
        let test = same_rank(rel, rank);
        Seq::filter_distributes_over_add(front, s.subrange(lo, hi), test);
        Seq::filter_distributes_over_add(front + s.subrange(lo, hi), back, test);
        Seq::filter_distributes_over_add(front, t.subrange(lo, hi), test);
        Seq::filter_distributes_over_add(front + t.subrange(lo, hi), back, test);
    }
}

/// Two neighbours that are out of order change places, and the order that
/// the sequence had is respected still.
pub proof fn lemma_respects_swap<T>(
    rel: spec_fn(T, T) -> Ordering,
    ascending: bool,
    before: Seq<T>,
    s: Seq<T>,
    i: int,
)
    requires
        weak_order(rel),
        respects(rel, ascending, before, s),
        0 <= i,
        i + 1 < s.len(),
        !precedes(rel, ascending, s[i], s[i + 1]),
    ensures
        respects(rel, ascending, before, swapped(s, i, i + 1)),
{
    lemma_swap_keeps_equals(rel, ascending, s, i);
}

/// An element moves towards the front past elements that must all stand
/// after it, and the order that the sequence had is respected still.
pub proof fn lemma_respects_move<T>(
    rel: spec_fn(T, T) -> Ordering,
    ascending: bool,
    before: Seq<T>,
    s: Seq<T>,
    from: int,
    to: int,
)
    requires
        weak_order(rel),
        respects(rel, ascending, before, s),
        0 <= to <= from < s.len(),
        forall|j: int| to <= j < from ==> !precedes(rel, ascending, #[trigger] s[j], s[from]),
    ensures
        respects(rel, ascending, before, moved(s, from, to)),
{
    lemma_move_keeps_equals(rel, ascending, s, from, to);
    if ordered(rel, ascending, before) {
        if to < from {
            lemma_ordered_pair(rel, ascending, s, to, from);
        } else {
            crate::utils::slice::lemma_moved_nowhere(s, from);
        }
    }
}

/// A part of a sequence is put in another order that respects the order it
/// had, and the order that the sequence had is respected still.
pub proof fn lemma_respects_part<T>(
    rel: spec_fn(T, T) -> Ordering,
    ascending: bool,
    before: Seq<T>,
    s: Seq<T>,
    t: Seq<T>,
    lo: int,
    hi: int,
)
    requires
        respects(rel, ascending, before, s),
        0 <= lo <= hi <= s.len(),
        t.len() == s.len(),
        forall|i: int| 0 <= i < lo || hi <= i < s.len() ==> #[trigger] t[i] == s[i],
        respects(rel, ascending, s.subrange(lo, hi), t.subrange(lo, hi)),
    ensures
        respects(rel, ascending, before, t),
{
    lemma_part_keeps_equals(rel, s, t, lo, hi);
    if ordered(rel, ascending, before) {
        lemma_ordered_part(rel, ascending, s, lo, hi);
        assert forall|i: int| 0 <= i < s.len() implies t[i] == s[i] by {
            if lo <= i < hi {
                assert(t.subrange(lo, hi)[i - lo] == t[i]);
                assert(s.subrange(lo, hi)[i - lo] == s[i]);
            }
        }
        assert(t =~= s);
    }
}

/// The parts of an ordered sequence are ordered.
pub proof fn lemma_ordered_part<T>(
    rel: spec_fn(T, T) -> Ordering,
    ascending: bool,
    s: Seq<T>,
    lo: int,
    hi: int,
)
    requires
        0 <= lo <= hi <= s.len(),
        ordered(rel, ascending, s),
    ensures
        ordered(rel, ascending, s.subrange(lo, hi)),
{
    let part = s.subrange(lo, hi);
    assert forall|i: int| 0 <= i && i + 1 < part.len()
        implies precedes(rel, ascending, #[trigger] part[i], part[i + 1]) by {
        assert(precedes(rel, ascending, s[lo + i], s[lo + i + 1]));
    }
}

/// In a sequence whose neighbours are in order, an element may stand before
/// any later one.
pub proof fn lemma_ordered_pair<T>(
    rel: spec_fn(T, T) -> Ordering,
    ascending: bool,
    s: Seq<T>,
    i: int,
    j: int,
)
    requires
        weak_order(rel),
        ordered(rel, ascending, s),
        0 <= i < j < s.len(),
    ensures
        precedes(rel, ascending, s[i], s[j]),
    decreases j - i,
{
    if i + 1 < j {
        lemma_ordered_pair(rel, ascending, s, i, j - 1);
        assert(precedes(rel, ascending, s[j - 1], s[j]));
        priority::lemma_precedes_transitive(rel, ascending, s[i], s[j - 1], s[j]);
    } else {
        assert(precedes(rel, ascending, s[i], s[i + 1]));
    }
}

/// A sequence has but one stable sorting: two sequences that are both what a
/// stable sort makes of `before` are the same. So all the stable sorts of
/// this library give the same result.
pub proof fn lemma_stable_sorting_is_unique<T>(
    rel: spec_fn(T, T) -> Ordering,
    ascending: bool,
    before: Seq<T>,
    a: Seq<T>,
    b: Seq<T>,
)
    requires
        weak_order(rel),
        is_stable_sorting(rel, ascending, before, a),
        is_stable_sorting(rel, ascending, before, b),
    ensures
        a == b,
{
    assert forall|rank: T| #[trigger]
        a.filter(same_rank(rel, rank)) == b.filter(same_rank(rel, rank)) by {
        assert(a.filter(same_rank(rel, rank)) == before.filter(same_rank(rel, rank)));
        assert(b.filter(same_rank(rel, rank)) == before.filter(same_rank(rel, rank)));
    }
    lemma_ordered_alike(rel, ascending, a, b);
}

/// Two ordered sequences of one length that hold the elements of each rank
/// in the same order are the same.
pub proof fn lemma_ordered_alike<T>(
    rel: spec_fn(T, T) -> Ordering,
    ascending: bool,
    a: Seq<T>,
    b: Seq<T>,
)
    requires
        weak_order(rel),
        a.len() == b.len(),
        ordered(rel, ascending, a),
        ordered(rel, ascending, b),
        keeps_equals_in_order(rel, a, b),
    ensures
        a == b,
    decreases a.len(),
{
    if a.len() == 0 {
        assert(a =~= b);
    } else {
        let x = a[0];
        let y = b[0];
        let test = same_rank(rel, x);
        let rest_a = a.drop_first();
        let rest_b = b.drop_first();
        assert(a =~= seq![x] + rest_a);
        assert(b =~= seq![y] + rest_b);
        priority::lemma_precedes_total(rel, ascending, x, x);
        priority::lemma_precedes_total(rel, ascending, x, y);
        // The first element of each is found in the other, and so may stand
        // after the first element of the other: the two are of equal rank.
        assert(rel(y, x) is Equal) by {
            lemma_filter_one(x, test);
            Seq::filter_distributes_over_add(seq![x], rest_a, test);
            assert(a.filter(test)[0] == x);
            assert(b.filter(test).contains(x));
            b.lemma_filter_contains_rev(test, x);
            let i = choose|i: int| 0 <= i < b.len() && b[i] == x;
            if i > 0 {
                lemma_ordered_pair(rel, ascending, b, 0, i);
            }
            let other = same_rank(rel, y);
            priority::lemma_precedes_total(rel, ascending, y, y);
            lemma_filter_one(y, other);
            Seq::filter_distributes_over_add(seq![y], rest_b, other);
            assert(b.filter(other)[0] == y);
            assert(a.filter(other) == b.filter(other));
            assert(a.filter(other).contains(y));
            a.lemma_filter_contains_rev(other, y);
            let j = choose|j: int| 0 <= j < a.len() && a[j] == y;
            if j > 0 {
                lemma_ordered_pair(rel, ascending, a, 0, j);
            }
        }
        // Both are the first of their rank, so they are the same element.
        assert(x == y) by {
            lemma_filter_one(x, test);
            lemma_filter_one(y, test);
            Seq::filter_distributes_over_add(seq![x], rest_a, test);
            Seq::filter_distributes_over_add(seq![y], rest_b, test);
            assert(a.filter(test)[0] == x);
            assert(b.filter(test)[0] == y);
        }
        lemma_ordered_part(rel, ascending, a, 1, span(a));
        lemma_ordered_part(rel, ascending, b, 1, span(b));
        assert(rest_a =~= a.subrange(1, span(a)));
        assert(rest_b =~= b.subrange(1, span(b)));
        assert forall|rank: T| #[trigger]
            rest_b.filter(same_rank(rel, rank)) == rest_a.filter(same_rank(rel, rank)) by {
            let class = same_rank(rel, rank);
            lemma_filter_one(x, class);
            Seq::filter_distributes_over_add(seq![x], rest_a, class);
            Seq::filter_distributes_over_add(seq![x], rest_b, class);
            assert(a.filter(class) == b.filter(class));
            if class(x) {
                assert((seq![x] + rest_a.filter(class)).drop_first() =~= rest_a.filter(class));
                assert((seq![x] + rest_b.filter(class)).drop_first() =~= rest_b.filter(class));
            } else {
                assert(Seq::<T>::empty() + rest_a.filter(class) =~= rest_a.filter(class));
                assert(Seq::<T>::empty() + rest_b.filter(class) =~= rest_b.filter(class));
            }
        }
        lemma_ordered_alike(rel, ascending, rest_a, rest_b);
    }
}

/// A slice of this length is ordered whatever it holds: it has no two
/// elements that could be out of order.
pub fn already_sorted(length: usize) -> (sorted: bool)
    ensures
        sorted == (length <= 1),
{
    length <= 1
}

/// Checks whether a slice is ordered in ascending or descending order by the
/// natural order of its elements. Pass `true` to check for ascending order
/// and `false` for descending order.
///
/// A slice of length 0 or 1 is ordered.
pub fn is_sorted<T: Ord>(sequence: &[T], ascending: bool) -> (sorted: bool)
    requires
        T::obeys_cmp_spec(),
    ensures
        sorted == ordered(natural::<T>(), ascending, sequence@),
{
    let by = |a: &T, b: &T| -> (o: Ordering)
        ensures
            o == a.cmp_spec(b),
        { a.cmp(b) };
    assert(decides(by, natural::<T>()));
    is_sorted_by(sequence, ascending, by)
}

/// Checks whether a slice is ordered in ascending or descending order by
/// `compare`, which tells the order of two elements. Pass `true` to check
/// for ascending order and `false` for descending order.
///
/// A slice of length 0 or 1 is ordered.
pub fn is_sorted_by<T, F>(
    sequence: &[T],
    ascending: bool,
    compare: F,
) -> (sorted: bool) where F: Fn(&T, &T) -> Ordering + Copy,
    requires
        callable(compare),
    ensures
        forall|rel: spec_fn(T, T) -> Ordering| #[trigger] decides(compare, rel)
            ==> sorted == ordered(rel, ascending, sequence@),
{
    let length = sequence.len();
    if already_sorted(length) {
        return true;
    }
    if ascending {
        for index in 0..length - 1
            invariant
                length == sequence@.len(),
                length > 1,
                ascending,
                callable(compare),
                forall|rel: spec_fn(T, T) -> Ordering, i: int|
                    #![trigger decides(compare, rel), sequence@[i]]
                    decides(compare, rel) && 0 <= i < index
                        ==> precedes(rel, ascending, sequence@[i], sequence@[i + 1]),
        {
            if priority::is_gt(compare(&sequence[index], &sequence[index + 1])) {
                assert forall|rel: spec_fn(T, T) -> Ordering| #[trigger] decides(compare, rel)
                    implies !ordered(rel, ascending, sequence@) by {
                    assert(!precedes(rel, ascending, sequence@[pos(index)], sequence@[index + 1]));
                }
                return false;
            }
        }
    } else {
        for index in 0..length - 1
            invariant
                length == sequence@.len(),
                length > 1,
                !ascending,
                callable(compare),
                forall|rel: spec_fn(T, T) -> Ordering, i: int|
                    #![trigger decides(compare, rel), sequence@[i]]
                    decides(compare, rel) && 0 <= i < index
                        ==> precedes(rel, ascending, sequence@[i], sequence@[i + 1]),
        {
            if priority::is_lt(compare(&sequence[index], &sequence[index + 1])) {
                assert forall|rel: spec_fn(T, T) -> Ordering| #[trigger] decides(compare, rel)
                    implies !ordered(rel, ascending, sequence@) by {
                    assert(!precedes(rel, ascending, sequence@[pos(index)], sequence@[index + 1]));
                }
                return false;
            }
        }
    }
    true
}

} // verus!
