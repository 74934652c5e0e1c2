//! Quicksort, and the partition that it is built on.

use crate::error::{AgcError, AgcErrorKind, AgcResult, describe_numbers, names_numbers};
use crate::sort::{already_sorted, is_sorting, ordered, sorts_by};
use crate::utils::priority;
use crate::utils::priority::{callable, decides, natural, precedes, weak_order};
use crate::utils::slice::{
    first_to_back, lemma_rearranged_multiset, lemma_swapped_rearranged, pos, rearranged, span,
    swapped,
};
use std::cmp::Ordering;
use vstd::prelude::*;
use vstd::std_specs::cmp::OrdSpec;

verus! {

/// The test that an item may stand before `rank`.
pub open spec fn before_rank<T>(
    rel: spec_fn(T, T) -> Ordering,
    ascending: bool,
    rank: T,
) -> spec_fn(T) -> bool {
    |item: T| precedes(rel, ascending, item, rank)
}

/// The order in which a sweep over `items` leaves those of them that may not
/// stand before `rank`. Such an item joins the others at the back. An item
/// that may stand before `rank` changes places with the first of them, and
/// so sends it to the back.
pub open spec fn displaced<T>(
    rel: spec_fn(T, T) -> Ordering,
    ascending: bool,
    items: Seq<T>,
    rank: T,
) -> Seq<T>
    decreases items.len(),
{
    if items.len() == 0 {
        items
    } else {
        let so_far = displaced(rel, ascending, items.drop_last(), rank);
        if precedes(rel, ascending, items.last(), rank) {
            first_to_back(so_far)
        } else {
            so_far.push(items.last())
        }
    }
}

/// `after` is `before` with `left..right` partitioned around the last element
/// of that range, which now stands at `pivot`: before it stand the elements
/// that may stand before it, in the order they had, and after it those that
/// may not, in the order in which the sweep and the last exchange left them.
pub open spec fn partitioned<T>(
    rel: spec_fn(T, T) -> Ordering,
    ascending: bool,
    before: Seq<T>,
    after: Seq<T>,
    left: int,
    pivot: int,
    right: int,
) -> bool {
    let rank = before[right - 1];
    &&& left <= pivot < right
    &&& after[pivot] == rank
    &&& forall|i: int| left <= i < pivot ==> precedes(rel, ascending, #[trigger] after[i], rank)
    &&& forall|i: int| pivot < i < right ==> !precedes(rel, ascending, #[trigger] after[i], rank)
    &&& after.subrange(left, pivot)
        == before.subrange(left, right - 1).filter(before_rank(rel, ascending, rank))
    &&& after.subrange(pivot + 1, right)
        == first_to_back(displaced(rel, ascending, before.subrange(left, right - 1), rank))
}

/// The sweep over `left..right - 1` has come to `hare`: the elements found so
/// far that may stand before the last element of the range are gathered, in
/// their order, in `left..tortoise`; the others lie in `tortoise..hare`.
pub open spec fn swept<T>(
    rel: spec_fn(T, T) -> Ordering,
    ascending: bool,
    before: Seq<T>,
    s: Seq<T>,
    left: int,
    tortoise: int,
    hare: int,
    right: int,
) -> bool {
    let rank = before[right - 1];
    &&& left <= tortoise <= hare < right
    &&& forall|i: int| left <= i < tortoise ==> precedes(rel, ascending, #[trigger] s[i], rank)
    &&& forall|i: int| tortoise <= i < hare ==> !precedes(rel, ascending, #[trigger] s[i], rank)
    &&& s.subrange(left, tortoise)
        == before.subrange(left, hare).filter(before_rank(rel, ascending, rank))
    &&& s.subrange(tortoise, hare) == displaced(rel, ascending, before.subrange(left, hare), rank)
}

/// The sweep starts with nothing gathered.
pub proof fn lemma_sweep_starts<T>(
    rel: spec_fn(T, T) -> Ordering,
    ascending: bool,
    s: Seq<T>,
    left: int,
    right: int,
)
    requires
        0 <= left < right <= s.len(),
    ensures
        swept(rel, ascending, s, s, left, left, left, right),
{
    reveal(Seq::filter);
    assert(s.subrange(left, left) =~= Seq::<T>::empty());
    let test = before_rank(rel, ascending, s[right - 1]);
    assert(s.subrange(left, left).filter(test) =~= Seq::<T>::empty());
}

/// An element that may stand before the last one is exchanged with the first
/// of those that may not, and so joins those gathered.
pub proof fn lemma_sweep_takes<T>(
    rel: spec_fn(T, T) -> Ordering,
    ascending: bool,
    before: Seq<T>,
    s: Seq<T>,
    left: int,
    tortoise: int,
    hare: int,
    right: int,
)
    requires
        0 <= left,
        right <= s.len(),
        s.len() == before.len(),
        hare + 1 < right,
        swept(rel, ascending, before, s, left, tortoise, hare, right),
        s[hare] == before[hare],
        precedes(rel, ascending, s[hare], before[right - 1]),
    ensures
        swept(
            rel, ascending, before, swapped(s, tortoise, hare), left, tortoise + 1, hare + 1, right,
        ),
{
    let rank = before[right - 1];
    let test = before_rank(rel, ascending, rank);
    let t = swapped(s, tortoise, hare);
    let seen = before.subrange(left, hare);
    assert(before.subrange(left, hare + 1) =~= seen.push(before[hare]));
    seen.lemma_filter_push(before[hare], test);
    assert(test(before[hare]));
    assert(t.subrange(left, tortoise + 1) =~= s.subrange(left, tortoise).push(before[hare]));
    assert(before.subrange(left, hare + 1).drop_last() =~= seen);
    assert(t.subrange(tortoise + 1, hare + 1) =~= first_to_back(s.subrange(tortoise, hare)));
}

/// An element that may not stand before the last one is left where it is.
pub proof fn lemma_sweep_leaves<T>(
    rel: spec_fn(T, T) -> Ordering,
    ascending: bool,
    before: Seq<T>,
    s: Seq<T>,
    left: int,
    tortoise: int,
    hare: int,
    right: int,
)
    requires
        0 <= left,
        right <= s.len(),
        s.len() == before.len(),
        hare + 1 < right,
        swept(rel, ascending, before, s, left, tortoise, hare, right),
        s[hare] == before[hare],
        !precedes(rel, ascending, s[hare], before[right - 1]),
    ensures
        swept(rel, ascending, before, s, left, tortoise, hare + 1, right),
{
    let rank = before[right - 1];
    let test = before_rank(rel, ascending, rank);
    let seen = before.subrange(left, hare);
    assert(before.subrange(left, hare + 1) =~= seen.push(before[hare]));
    seen.lemma_filter_push(before[hare], test);
    assert(!test(before[hare]));
    assert(before.subrange(left, hare + 1).drop_last() =~= seen);
    assert(s.subrange(tortoise, hare + 1) =~= s.subrange(tortoise, hare).push(before[hare]));
}

/// When the sweep is over, the last element is exchanged with the first of
/// those that may not stand before it, and the range is partitioned.
pub proof fn lemma_sweep_ends<T>(
    rel: spec_fn(T, T) -> Ordering,
    ascending: bool,
    before: Seq<T>,
    s: Seq<T>,
    left: int,
    tortoise: int,
    right: int,
)
    requires
        0 <= left,
        right <= s.len(),
        s.len() == before.len(),
        swept(rel, ascending, before, s, left, tortoise, right - 1, right),
        s[right - 1] == before[right - 1],
    ensures
        partitioned(rel, ascending, before, swapped(s, tortoise, right - 1), left, tortoise, right),
{
    let t = swapped(s, tortoise, right - 1);
    assert(t.subrange(left, tortoise) =~= s.subrange(left, tortoise));
    assert(t.subrange(tortoise + 1, right) =~= first_to_back(s.subrange(tortoise, right - 1)));
}

/// A sequence all of whose elements pass a test is its own filter.
pub proof fn lemma_filter_keeps_all<T>(s: Seq<T>, test: spec_fn(T) -> bool)
    requires
        forall|i: int| 0 <= i < s.len() ==> test(#[trigger] s[i]),
    ensures
        s.filter(test) == s,
    decreases s.len(),
{
    reveal(Seq::filter);
    if s.len() > 0 {
        lemma_filter_keeps_all(s.drop_last(), test);
        assert(s.drop_last().push(s.last()) =~= s);
    }
}

/// Partitioning a range whose elements may all stand before its last one
/// changes nothing.
pub proof fn lemma_partitioned_in_place<T>(
    rel: spec_fn(T, T) -> Ordering,
    ascending: bool,
    before: Seq<T>,
    after: Seq<T>,
    left: int,
    pivot: int,
    right: int,
)
    requires
        0 <= left < right <= before.len(),
        rearranged(before, after, left, right),
        partitioned(rel, ascending, before, after, left, pivot, right),
        forall|i: int|
            left <= i < right - 1
                ==> precedes(rel, ascending, #[trigger] before[i], before[right - 1]),
    ensures
        pivot == right - 1,
        after == before,
{
    let rank = before[right - 1];
    let front = before.subrange(left, right - 1);
    assert forall|i: int| 0 <= i < front.len()
        implies before_rank(rel, ascending, rank)(#[trigger] front[i]) by {
        assert(front[i] == before[left + i]);
    }
    lemma_filter_keeps_all(front, before_rank(rel, ascending, rank));
    assert(after.subrange(left, pivot).len() == front.len());
    assert forall|i: int| 0 <= i < before.len() implies after[i] == before[i] by {
        if left <= i < pivot {
            assert(after.subrange(left, pivot)[i - left] == after[i]);
            assert(front[i - left] == before[i]);
        }
    }
    assert(after =~= before);
}

/// The error with which `partition` refuses the bounds of a range in a slice
/// of the given length: `WrongOrder` where the range ends before it starts,
/// else `OutOfBounds` where it starts or ends beyond the slice, each with a
/// description that names the bound at fault and what it is held against.
pub open spec fn refuses_range(error: AgcError, left: usize, right: usize, length: nat) -> bool {
    let description = error@.1;
    if left > right {
        &&& error.kind() == AgcErrorKind::WrongOrder
        &&& names_numbers(
            description, "Left ("@, left, ") must be less than or equal to right ("@, right, ")"@,
        )
    } else if left >= length {
        &&& error.kind() == AgcErrorKind::OutOfBounds
        &&& names_numbers(
            description, "Left ("@, left, ") must be less than length ("@, length as usize, ")"@,
        )
    } else {
        &&& right > length
        &&& error.kind() == AgcErrorKind::OutOfBounds
        &&& names_numbers(
            description, "Right ("@, right, ") must be less than or equal to length ("@,
            length as usize, ")"@,
        )
    }
}

/// The partition function used in quicksort. It takes the last element of
/// `left..right` as the pivot and moves the elements of that range that may
/// stand before it to the front of the range, those that may not to the back,
/// and the pivot between them. It returns the place where the pivot lands.
/// `left` is the first place of the range and `right` the place after its
/// last, so the range must not be empty. Elements of equal rank with the
/// pivot count among those that may stand before it.
///
/// # Errors
///
/// `WrongOrder` if `left > right`, else `OutOfBounds` if `left` is not a place
/// of the slice or `right` lies beyond its end. The slice is then unchanged.
pub fn partition<T, F>(
    sequence: &mut [T],
    left: usize,
    right: usize,
    ascending: bool,
    compare: F,
) -> (result: AgcResult<usize>) where F: Fn(&T, &T) -> Ordering + Copy
    requires
        callable(compare),
        left != right,
    ensures
        match result {
            Ok(pivot) => {
                &&& left <= pivot < right <= old(sequence)@.len()
                &&& rearranged(old(sequence)@, final(sequence)@, pos(left), pos(right))
                &&& final(sequence)@.to_multiset() == old(sequence)@.to_multiset()
                &&& final(sequence)@[pos(pivot)] == old(sequence)@[right - 1]
                &&& forall|rel: spec_fn(T, T) -> Ordering| #[trigger] decides(compare, rel)
                    ==> partitioned(
                        rel, ascending, old(sequence)@, final(sequence)@, pos(left), pos(pivot),
                        pos(right),
                    )
            },
            Err(error) => {
                &&& final(sequence)@ == old(sequence)@
                &&& refuses_range(error, left, right, old(sequence)@.len())
            },
        },
{
    let length = sequence.len();
    if left > right {
        let text = describe_numbers(
            "Left (", left, ") must be less than or equal to right (", right, ")",
        );
        return Err(AgcError::new(AgcErrorKind::WrongOrder, text.as_str()));
    } else if left >= length {
        let text = describe_numbers("Left (", left, ") must be less than length (", length, ")");
        return Err(AgcError::new(AgcErrorKind::OutOfBounds, text.as_str()));
    } else if right > length {
        let text = describe_numbers(
            "Right (", right, ") must be less than or equal to length (", length, ")",
        );
        return Err(AgcError::new(AgcErrorKind::OutOfBounds, text.as_str()));
    }
    // `right` is the place after the last element of the range.
    let pivot = right - 1;
    // `tortoise` is the place after the last element found so far that may
    // stand before the pivot; `hare` is the place being looked at. The hare
    // is never behind the tortoise, so what lies between them may not stand
    // before the pivot, and an exchange of the two keeps it so.
    let mut tortoise = left;
    proof {
        assert forall|rel: spec_fn(T, T) -> Ordering| #[trigger] decides(compare, rel)
            implies swept(
                rel, ascending, old(sequence)@, sequence@, pos(left), pos(left), pos(left),
                pos(right),
            ) by {
            lemma_sweep_starts(rel, ascending, sequence@, pos(left), pos(right));
        }
    }
    for hare in left..pivot
        invariant
            callable(compare),
            left < right <= length,
            pivot == right - 1,
            length == old(sequence)@.len(),
            length == sequence@.len(),
            left <= tortoise <= hare,
            rearranged(old(sequence)@, sequence@, pos(left), pos(right)),
            forall|i: int| hare <= i < right ==> #[trigger] sequence@[i] == old(sequence)@[i],
            forall|rel: spec_fn(T, T) -> Ordering| #[trigger] decides(compare, rel)
                ==> swept(
                    rel, ascending, old(sequence)@, sequence@, pos(left), pos(tortoise), pos(hare),
                    pos(right),
                ),
    {
        let ghost s = sequence@;
        let ordering = compare(&sequence[hare], &sequence[pivot]);
        if (priority::is_le(ordering) && ascending) || (priority::is_ge(ordering) && !ascending) {
            proof {
                let t = swapped(s, pos(tortoise), pos(hare));
                assert forall|rel: spec_fn(T, T) -> Ordering| #[trigger] decides(compare, rel)
                    implies swept(
                        rel, ascending, old(sequence)@, t, pos(left), tortoise + 1, hare + 1,
                        pos(right),
                    ) by {
                    lemma_sweep_takes(
                        rel, ascending, old(sequence)@, s, pos(left), pos(tortoise), pos(hare),
                        pos(right),
                    );
                }
                lemma_swapped_rearranged(s, pos(left), pos(right), pos(tortoise), pos(hare));
            }
            sequence.swap(tortoise, hare);
            tortoise += 1;
        } else {
            proof {
                assert forall|rel: spec_fn(T, T) -> Ordering| #[trigger] decides(compare, rel)
                    implies swept(
                        rel, ascending, old(sequence)@, s, pos(left), pos(tortoise), hare + 1,
                        pos(right),
                    ) by {
                    lemma_sweep_leaves(
                        rel, ascending, old(sequence)@, s, pos(left), pos(tortoise), pos(hare),
                        pos(right),
                    );
                }
            }
        }
    }
    proof {
        let s = sequence@;
        let t = swapped(s, pos(tortoise), pos(pivot));
        assert forall|rel: spec_fn(T, T) -> Ordering| #[trigger] decides(compare, rel)
            implies partitioned(
                rel, ascending, old(sequence)@, t, pos(left), pos(tortoise), pos(right),
            ) by {
            lemma_sweep_ends(
                rel, ascending, old(sequence)@, s, pos(left), pos(tortoise), pos(right),
            );
        }
        lemma_swapped_rearranged(s, pos(left), pos(right), pos(tortoise), pos(pivot));
        lemma_rearranged_multiset(old(sequence)@, t, pos(left), pos(right));
    }
    // Put the pivot after the last element that may stand before it.
    sequence.swap(tortoise, pivot);
    Ok(tortoise)
}

/// Two parts that were rearranged apart, with the pivot between them, hold
/// the elements of the sequence.
pub proof fn lemma_parts_around_pivot_multiset<T>(
    parted: Seq<T>,
    pivot: int,
    low: Seq<T>,
    high: Seq<T>,
)
    requires
        0 <= pivot < parted.len(),
        low.to_multiset() == parted.subrange(0, pivot).to_multiset(),
        high.to_multiset() == parted.subrange(pivot + 1, span(parted)).to_multiset(),
    ensures
        low.len() == pivot,
        high.len() == parted.len() - pivot - 1,
        (low + (seq![parted[pivot]] + high)).len() == parted.len(),
        (low + (seq![parted[pivot]] + high)).to_multiset() == parted.to_multiset(),
{
    let rank = parted[pivot];
    let first = parted.subrange(0, pivot);
    let second = parted.subrange(pivot + 1, span(parted));
    vstd::seq_lib::to_multiset_len(low);
    vstd::seq_lib::to_multiset_len(first);
    vstd::seq_lib::to_multiset_len(high);
    vstd::seq_lib::to_multiset_len(second);
    assert(parted =~= first + (seq![rank] + second));
    vstd::seq_lib::lemma_multiset_commutative(first, seq![rank] + second);
    vstd::seq_lib::lemma_multiset_commutative(seq![rank], second);
    vstd::seq_lib::lemma_multiset_commutative(low, seq![rank] + high);
    vstd::seq_lib::lemma_multiset_commutative(seq![rank], high);
}

/// Two parts that were sorted apart, with the pivot between them, make an
/// ordered sequence, where all of the first part may stand before the pivot
/// and none of the second may.
pub proof fn lemma_parts_around_pivot<T>(
    rel: spec_fn(T, T) -> Ordering,
    ascending: bool,
    parted: Seq<T>,
    pivot: int,
    low: Seq<T>,
    high: Seq<T>,
)
    requires
        weak_order(rel),
        0 <= pivot < parted.len(),
        forall|i: int| 0 <= i < pivot
            ==> precedes(rel, ascending, #[trigger] parted[i], parted[pivot]),
        forall|i: int|
            pivot < i < parted.len()
                ==> !precedes(rel, ascending, #[trigger] parted[i], parted[pivot]),
        low.to_multiset() == parted.subrange(0, pivot).to_multiset(),
        high.to_multiset() == parted.subrange(pivot + 1, span(parted)).to_multiset(),
        ordered(rel, ascending, low),
        ordered(rel, ascending, high),
    ensures
        ordered(rel, ascending, low + (seq![parted[pivot]] + high)),
{
    let rank = parted[pivot];
    let first = parted.subrange(0, pivot);
    let second = parted.subrange(pivot + 1, span(parted));
    let whole = low + (seq![rank] + high);
    lemma_parts_around_pivot_multiset(parted, pivot, low, high);
    assert forall|i: int| 0 <= i && i + 1 < whole.len()
        implies precedes(rel, ascending, #[trigger] whole[i], whole[i + 1]) by {
        if i + 1 < pivot {
            assert(precedes(rel, ascending, low[i], low[i + 1]));
        } else if i + 1 == pivot {
            low.to_multiset_ensures();
            first.to_multiset_ensures();
            assert(low.contains(low[i]));
            assert(first.to_multiset().count(low[i]) > 0);
            assert(first.contains(low[i]));
            let k = choose|k: int| 0 <= k < first.len() && first[k] == low[i];
            assert(precedes(rel, ascending, parted[k], rank));
        } else if i == pivot {
            high.to_multiset_ensures();
            second.to_multiset_ensures();
            assert(high.contains(high[0]));
            assert(second.to_multiset().count(high[0]) > 0);
            assert(second.contains(high[0]));
            let k = choose|k: int| 0 <= k < second.len() && second[k] == high[0];
            assert(!precedes(rel, ascending, parted[pivot + 1 + k], rank));
            priority::lemma_precedes_total(rel, ascending, high[0], rank);
        } else {
            assert(precedes(rel, ascending, high[i - pivot - 1], high[i - pivot]));
        }
    }
}

/// In an ordered sequence every element may stand before the last.
pub proof fn lemma_ordered_before_last<T>(
    rel: spec_fn(T, T) -> Ordering,
    ascending: bool,
    s: Seq<T>,
    lo: int,
    hi: int,
)
    requires
        weak_order(rel),
        0 <= lo < hi <= s.len(),
        ordered(rel, ascending, s.subrange(lo, hi)),
    ensures
        forall|i: int| lo <= i < hi - 1 ==> precedes(rel, ascending, #[trigger] s[i], s[hi - 1]),
{
    let part = s.subrange(lo, hi);
    assert forall|i: int| lo <= i < hi - 1
        implies precedes(rel, ascending, #[trigger] s[i], s[hi - 1]) by {
        crate::sort::lemma_ordered_pair(rel, ascending, part, i - lo, hi - 1 - lo);
    }
}

/// Sorts a slice by quicksort, recursively, by the natural order of its
/// elements.
///
/// The slice is partitioned around its last element, and the parts before
/// and after where that element lands are sorted in the same way. Elements
/// of equal rank may change their order. The depth of the recursion is that
/// of the partitions: no more than the length of the slice, which an ordered
/// slice reaches.
pub fn quicksort_recursively<T: Ord>(
    sequence: &mut [T],
    ascending: bool,
) -> (result: AgcResult<&mut [T]>)
    requires
        vstd::laws_cmp::obeys_cmp::<T>(),
    ensures
        match result {
            Ok(sorted) => {
                &&& final(sequence)@ == final(sorted)@
                &&& is_sorting(natural::<T>(), ascending, old(sequence)@, sorted@)
            },
            Err(_) => false,
        },
{
    proof {
        priority::lemma_natural_weak_order::<T>();
        reveal(vstd::laws_cmp::obeys_cmp_ord);
    }
    let by = |a: &T, b: &T| -> (o: Ordering)
        ensures
            o == a.cmp_spec(b),
        { a.cmp(b) };
    assert(decides(by, natural::<T>()));
    quicksort_recursively_by(sequence, ascending, by)
}

/// Sorts a slice by quicksort, recursively, by the order that `compare`
/// tells.
///
/// The slice is partitioned around its last element, and the parts before
/// and after where that element lands are sorted in the same way. Elements
/// of equal rank may change their order. The depth of the recursion is that
/// of the partitions: no more than the length of the slice, which an ordered
/// slice reaches.
pub fn quicksort_recursively_by<T, F>(
    sequence: &mut [T],
    ascending: bool,
    compare: F,
) -> (result: AgcResult<&mut [T]>) where F: Fn(&T, &T) -> Ordering + Copy
    requires
        callable(compare),
    ensures
        match result {
            Ok(sorted) => {
                &&& final(sequence)@ == final(sorted)@
                &&& sorts_by(compare, ascending, old(sequence)@, sorted@)
            },
            Err(_) => false,
        },
    decreases old(sequence)@.len(),
{
    let length = sequence.len();
    if already_sorted(length) {
        return Ok(sequence);
    }
    let pivot = partition(sequence, 0, length, ascending, compare)?;
    let ghost parted = sequence@;
    let (low, rest) = sequence.split_at_mut(pivot);
    let (middle, high) = rest.split_at_mut(1);
    let ghost high_before = high@;
    quicksort_recursively_by(low, ascending, compare)?;
    quicksort_recursively_by(high, ascending, compare)?;
    proof {
        let rank = parted[pos(pivot)];
        assert(parted.subrange(pos(pivot), pos(length)).subrange(1, length - pivot)
            =~= parted.subrange(pivot + 1, pos(length)));
        assert(middle@ =~= seq![rank]);
        assert(sequence@ == low@ + (seq![rank] + high@));
        lemma_parts_around_pivot_multiset(parted, pos(pivot), low@, high@);
        assert forall|rel: spec_fn(T, T) -> Ordering|
            #[trigger] decides(compare, rel) && weak_order(rel)
            implies is_sorting(rel, ascending, old(sequence)@, sequence@) by {
            lemma_parts_around_pivot(rel, ascending, parted, pos(pivot), low@, high@);
            if ordered(rel, ascending, old(sequence)@) {
                assert(old(sequence)@.subrange(0, pos(length)) =~= old(sequence)@);
                lemma_ordered_before_last(rel, ascending, old(sequence)@, 0, pos(length));
                lemma_partitioned_in_place(
                    rel, ascending, old(sequence)@, parted, 0, pos(pivot), pos(length),
                );
                crate::sort::lemma_ordered_part(rel, ascending, parted, 0, pos(pivot));
                assert(high@ =~= high_before);
                assert(sequence@ =~= old(sequence)@);
            }
        }
    }
    Ok(sequence)
}

/// A range of a slice that is still to be partitioned, given by its first
/// and its last place.
pub struct SegmentPair {
    pub start: usize,
    pub end: usize,
}

/// The places `i` and `j` lie in one and the same of the segments.
pub open spec fn together(stack: Seq<SegmentPair>, i: int, j: int) -> bool {
    exists|k: int| 0 <= k < stack.len() && (#[trigger] stack[k]).start <= i && j <= stack[k].end
}

/// Each segment has two places or more and lies within the length, and no
/// two segments share a place.
pub open spec fn segments_apart(stack: Seq<SegmentPair>, length: int) -> bool {
    &&& forall|k: int| 0 <= k < stack.len() ==> (#[trigger] stack[k]).start < stack[k].end < length
    &&& forall|k: int, l: int|
        0 <= k < l < stack.len() ==> (#[trigger] stack[k]).end < (#[trigger] stack[l]).start
            || stack[l].end < stack[k].start
}

/// The number of places that the segments hold.
pub open spec fn pending(stack: Seq<SegmentPair>) -> int
    decreases stack.len(),
{
    if stack.len() == 0 {
        0
    } else {
        pending(stack.drop_last()) + (stack.last().end - stack.last().start + 1)
    }
}

/// The segments that are left once the last one is partitioned at `pivot`:
/// the others, and the parts of the last one before and after the pivot
/// where they have two places or more.
pub open spec fn segments_after(stack: Seq<SegmentPair>, pivot: usize) -> Seq<SegmentPair> {
    let others = stack.drop_last();
    let segment = stack.last();
    let low = if pivot > segment.start + 1 {
        others.push(SegmentPair { start: segment.start, end: (pivot - 1) as usize })
    } else {
        others
    };
    if pivot + 1 < segment.end {
        low.push(SegmentPair { start: (pivot + 1) as usize, end: segment.end })
    } else {
        low
    }
}

/// Two places lie together in one of the segments with one more segment if
/// they lie together in one of the segments or in that one.
pub proof fn lemma_together_push(stack: Seq<SegmentPair>, segment: SegmentPair, i: int, j: int)
    ensures
        together(stack.push(segment), i, j) <==> together(stack, i, j) || (segment.start <= i && j
            <= segment.end),
{
    let more = stack.push(segment);
    if together(stack, i, j) {
        let k = choose|k: int| 0 <= k < stack.len() && (#[trigger] stack[k]).start <= i && j
            <= stack[k].end;
        assert(more[k] == stack[k]);
    }
    if segment.start <= i && j <= segment.end {
        assert(more[stack.len() as int] == segment);
    }
    if together(more, i, j) {
        let k = choose|k: int| 0 <= k < more.len() && (#[trigger] more[k]).start <= i && j
            <= more[k].end;
        if k < stack.len() {
            assert(more[k] == stack[k]);
        }
    }
}

/// A segment more holds as many places more as it has.
pub proof fn lemma_pending_push(stack: Seq<SegmentPair>, segment: SegmentPair)
    ensures
        pending(stack.push(segment)) == pending(stack) + (segment.end - segment.start + 1),
{
    assert(stack.push(segment).drop_last() =~= stack);
}

/// Segments of two places or more hold no fewer places than none.
pub proof fn lemma_pending_positive(stack: Seq<SegmentPair>, length: int)
    requires
        segments_apart(stack, length),
    ensures
        pending(stack) >= 0,
    decreases stack.len(),
{
    if stack.len() > 0 {
        let others = stack.drop_last();
        assert forall|k: int| 0 <= k < others.len() implies (#[trigger] others[k]).start
            < others[k].end < length by {
            assert(others[k] == stack[k]);
        }
        assert forall|k: int, l: int| 0 <= k < l < others.len() implies (#[trigger] others[k]).end
            < (#[trigger] others[l]).start || others[l].end < others[k].start by {
            assert(others[k] == stack[k]);
            assert(others[l] == stack[l]);
        }
        lemma_pending_positive(others, length);
        assert(stack[stack.len() - 1] == stack.last());
    }
}

/// Partitioning the last segment leaves segments that are apart and hold
/// fewer places.
pub proof fn lemma_segments_after(stack: Seq<SegmentPair>, pivot: usize, length: int)
    requires
        stack.len() > 0,
        segments_apart(stack, length),
        stack.last().start <= pivot <= stack.last().end,
    ensures
        segments_apart(segments_after(stack, pivot), length),
        0 <= pending(segments_after(stack, pivot)) < pending(stack),
{
    let others = stack.drop_last();
    let segment = stack.last();
    let before = SegmentPair { start: segment.start, end: (pivot - 1) as usize };
    let after = SegmentPair { start: (pivot + 1) as usize, end: segment.end };
    let low = if pivot > segment.start + 1 {
        others.push(before)
    } else {
        others
    };
    let next = segments_after(stack, pivot);
    assert(stack =~= others.push(segment));
    lemma_pending_push(others, segment);
    lemma_pending_push(others, before);
    lemma_pending_push(low, after);
    assert forall|k: int| 0 <= k < others.len() implies (#[trigger] others[k]).start < others[k].end
        < length && (others[k].end < segment.start || segment.end < others[k].start) by {
        assert(others[k] == stack[k]);
        assert(stack[stack.len() - 1] == segment);
    }
    assert forall|k: int, l: int| 0 <= k < l < others.len() implies (#[trigger] others[k]).end < (
    #[trigger] others[l]).start || others[l].end < others[k].start by {
        assert(others[k] == stack[k]);
        assert(others[l] == stack[l]);
    }
    assert(segments_apart(low, length));
    assert(segments_apart(next, length));
    lemma_pending_positive(next, length);
}

/// Two places lie together in a segment that is left once the last one is
/// partitioned if they lay together in one of the others, or lie both before
/// or both after the pivot in the last one.
pub proof fn lemma_together_after(stack: Seq<SegmentPair>, pivot: usize, i: int, j: int)
    requires
        stack.len() > 0,
        stack.last().start <= pivot <= stack.last().end,
        i < j,
    ensures
        together(segments_after(stack, pivot), i, j) <==> together(stack.drop_last(), i, j) || (
        stack.last().start <= i && j < pivot) || (pivot < i && j <= stack.last().end),
{
    let others = stack.drop_last();
    let segment = stack.last();
    let before = SegmentPair { start: segment.start, end: (pivot - 1) as usize };
    let after = SegmentPair { start: (pivot + 1) as usize, end: segment.end };
    let low = if pivot > segment.start + 1 {
        others.push(before)
    } else {
        others
    };
    lemma_together_push(others, before, i, j);
    lemma_together_push(low, after, i, j);
}

/// What is settled: two places that do not lie together in one of the
/// segments hold elements that are in order.
pub open spec fn settled<T>(
    rel: spec_fn(T, T) -> Ordering,
    ascending: bool,
    s: Seq<T>,
    stack: Seq<SegmentPair>,
) -> bool {
    forall|i: int, j: int|
        0 <= i < j < s.len() && !together(stack, i, j)
            ==> precedes(rel, ascending, #[trigger] s[i], #[trigger] s[j])
}

/// Partitioning the last segment settles its pivot against its two parts,
/// and the parts against each other.
pub proof fn lemma_settled_after<T>(
    rel: spec_fn(T, T) -> Ordering,
    ascending: bool,
    s: Seq<T>,
    t: Seq<T>,
    stack: Seq<SegmentPair>,
    pivot: usize,
)
    requires
        weak_order(rel),
        stack.len() > 0,
        segments_apart(stack, span(s)),
        settled(rel, ascending, s, stack),
        rearranged(s, t, pos(stack.last().start), stack.last().end + 1),
        partitioned(
            rel,
            ascending,
            s,
            t,
            pos(stack.last().start),
            pos(pivot),
            stack.last().end + 1,
        ),
    ensures
        settled(rel, ascending, t, segments_after(stack, pivot)),
{
    let others = stack.drop_last();
    let segment = stack.last();
    let first = pos(segment.start);
    let last = pos(segment.end);
    let next = segments_after(stack, pivot);
    let rank = t[pos(pivot)];
    lemma_segments_after(stack, pivot, span(s));
    assert(stack =~= others.push(segment));
    assert forall|k: int| 0 <= k < others.len() implies (#[trigger] others[k]).end < segment.start
        || segment.end < others[k].start by {
        assert(others[k] == stack[k]);
        assert(stack[stack.len() - 1] == segment);
    }
    assert forall|i: int, j: int| 0 <= i < j < t.len() && !together(next, i, j)
        implies precedes(rel, ascending, #[trigger] t[i], #[trigger] t[j]) by {
        lemma_together_push(others, segment, i, j);
        if first <= i && j <= last {
            // Both lie in the segment: the pivot lies between them, or is
            // one of them.
            priority::lemma_precedes_total(rel, ascending, rank, rank);
            assert(i <= pivot <= j) by {
                lemma_together_after(stack, pivot, i, j);
            }
            assert(precedes(rel, ascending, t[i], rank));
            if j > pivot {
                priority::lemma_precedes_total(rel, ascending, t[j], rank);
            }
            assert(precedes(rel, ascending, rank, t[j]));
            priority::lemma_precedes_transitive(rel, ascending, t[i], rank, t[j]);
        } else {
            // One of them at least lies outside the segment: there it was
            // in order with all that the segment held.
            let from_i = if first <= i <= last {
                crate::utils::slice::lemma_rearranged_origin(s, t, first, last + 1, i);
                choose|k: int| first <= k < last + 1 && s[k] == t[i]
            } else {
                i
            };
            let from_j = if first <= j <= last {
                crate::utils::slice::lemma_rearranged_origin(s, t, first, last + 1, j);
                choose|k: int| first <= k < last + 1 && s[k] == t[j]
            } else {
                j
            };
            assert(s[from_i] == t[i]);
            assert(s[from_j] == t[j]);
            assert(from_i < from_j);
            lemma_together_push(others, segment, from_i, from_j);
            lemma_together_after(stack, pivot, i, j);
            if together(others, from_i, from_j) {
                let k = choose|k: int| 0 <= k < others.len() && (#[trigger] others[k]).start
                    <= from_i && from_j <= others[k].end;
                assert(others[k].start <= i && j <= others[k].end);
                assert(together(others, i, j));
            }
            assert(precedes(rel, ascending, s[from_i], s[from_j]));
        }
    }
}

/// Sorts a slice by quicksort, by the natural order of its elements.
///
/// The slice is partitioned around its last element, and then in the same
/// way the parts before and after where that element lands, as long as a
/// part has two elements or more. The parts that are still to be
/// partitioned are kept on a stack. Elements of equal rank may change their
/// order.
pub fn quicksort<T: Ord>(sequence: &mut [T], ascending: bool) -> (result: AgcResult<&mut [T]>)
    requires
        vstd::laws_cmp::obeys_cmp::<T>(),
    ensures
        match result {
            Ok(sorted) => {
                &&& final(sequence)@ == final(sorted)@
                &&& is_sorting(natural::<T>(), ascending, old(sequence)@, sorted@)
            },
            Err(_) => false,
        },
{
    proof {
        priority::lemma_natural_weak_order::<T>();
        reveal(vstd::laws_cmp::obeys_cmp_ord);
    }
    let by = |a: &T, b: &T| -> (o: Ordering)
        ensures
            o == a.cmp_spec(b),
        { a.cmp(b) };
    assert(decides(by, natural::<T>()));
    quicksort_by(sequence, ascending, by)
}

/// Sorts a slice by quicksort, by the order that `compare` tells.
///
/// The slice is partitioned around its last element, and then in the same
/// way the parts before and after where that element lands, as long as a
/// part has two elements or more. The parts that are still to be
/// partitioned are kept on a stack. Elements of equal rank may change their
/// order.
pub fn quicksort_by<T, F>(
    sequence: &mut [T],
    ascending: bool,
    compare: F,
) -> (result: AgcResult<&mut [T]>) where F: Fn(&T, &T) -> Ordering + Copy
    requires
        callable(compare),
    ensures
        match result {
            Ok(sorted) => {
                &&& final(sequence)@ == final(sorted)@
                &&& sorts_by(compare, ascending, old(sequence)@, sorted@)
            },
            Err(_) => false,
        },
{
    let length = sequence.len();
    if already_sorted(length) {
        return Ok(sequence);
    }
    // `stack` holds the segments of the slice that are yet to be partitioned.
    let mut stack: Vec<SegmentPair> = Vec::new();
    stack.push(SegmentPair { start: 0, end: length - 1 });
    proof {
        assert forall|i: int, j: int| 0 <= i < j < length implies together(stack@, i, j) by {
            assert(stack@[0].start <= i && j <= stack@[0].end);
        }
    }
    while stack.len() > 0
        invariant
            callable(compare),
            length == sequence@.len(),
            length == old(sequence)@.len(),
            sequence@.to_multiset() == old(sequence)@.to_multiset(),
            segments_apart(stack@, pos(length)),
            forall|rel: spec_fn(T, T) -> Ordering|
                #[trigger] decides(compare, rel) && weak_order(rel)
                ==> settled(rel, ascending, sequence@, stack@)
                && (ordered(rel, ascending, old(sequence)@) ==> sequence@ == old(sequence)@),
        decreases pending(stack@),
    {
        let ghost s = sequence@;
        let ghost segments = stack@;
        let segment = stack.pop().unwrap();
        let pivot = partition(sequence, segment.start, segment.end + 1, ascending, compare)?;
        // Each part that has more than one element is yet to be partitioned.
        if pivot > segment.start + 1 {
            stack.push(SegmentPair { start: segment.start, end: pivot - 1 });
        }
        if pivot + 1 < segment.end {
            stack.push(SegmentPair { start: pivot + 1, end: segment.end });
        }
        proof {
            let t = sequence@;
            assert(segment == segments.last());
            assert(stack@ == segments_after(segments, pivot));
            lemma_segments_after(segments, pivot, pos(length));
            assert forall|rel: spec_fn(T, T) -> Ordering|
                #[trigger] decides(compare, rel) && weak_order(rel)
                implies settled(rel, ascending, t, stack@)
                && (ordered(rel, ascending, old(sequence)@) ==> t == old(sequence)@) by {
                lemma_settled_after(rel, ascending, s, t, segments, pivot);
                if ordered(rel, ascending, old(sequence)@) {
                    crate::sort::lemma_ordered_part(
                        rel, ascending, s, pos(segment.start), segment.end + 1,
                    );
                    lemma_ordered_before_last(
                        rel, ascending, s, pos(segment.start), segment.end + 1,
                    );
                    lemma_partitioned_in_place(
                        rel, ascending, s, t, pos(segment.start), pos(pivot), segment.end + 1,
                    );
                }
            }
        }
    }
    proof {
        assert forall|rel: spec_fn(T, T) -> Ordering|
            #[trigger] decides(compare, rel) && weak_order(rel)
            implies ordered(rel, ascending, sequence@) by {
            assert forall|i: int| 0 <= i && i + 1 < sequence@.len()
                implies precedes(rel, ascending, #[trigger] sequence@[i], sequence@[i + 1]) by {
                assert(!together(stack@, i, i + 1));
            }
        }
    }
    Ok(sequence)
}

} // verus!
