//! Binary search functions.

use crate::error::{AgcError, AgcErrorKind, AgcResult};
use crate::sort::{is_sorted, is_sorted_by, lemma_ordered_pair, ordered};
use crate::utils::priority;
use crate::utils::priority::{
    callable, decides, natural, precedes, says_after, says_before, weak_order,
};
use crate::utils::slice::pos;
use std::cmp::Ordering;
use vstd::prelude::*;
use vstd::std_specs::cmp::OrdSpec;

verus! {

/// `place` is where `item` belongs in the ordered sequence `s`: nothing
/// before the place must stand after the item, and nothing from the place on
/// must stand before it. The place is that of an element of equal rank with
/// the item, or it is the first place where the item can be put in: all that
/// comes before it must stand before the item. The first element of a
/// sequence of two or more is not looked at for a match: if it alone is of
/// equal rank with the item, the place is the one after it.
pub open spec fn is_place<T>(
    rel: spec_fn(T, T) -> Ordering,
    ascending: bool,
    s: Seq<T>,
    item: T,
    place: int,
) -> bool {
    &&& 0 <= place <= s.len()
    &&& forall|k: int| 0 <= k < place ==> !says_before(rel(item, #[trigger] s[k]), ascending)
    &&& forall|k: int| place <= k < s.len() ==> !says_after(rel(item, #[trigger] s[k]), ascending)
    &&& {
        ||| is_match(rel, s, item, place)
        ||| forall|k: int| 0 <= k < place ==> says_after(rel(item, #[trigger] s[k]), ascending)
        ||| place == 1 && s.len() >= 2 && rel(item, s[0]) is Equal
    }
}

/// At `place` stands an element of equal rank with `item`.
pub open spec fn is_match<T>(
    rel: spec_fn(T, T) -> Ordering,
    s: Seq<T>,
    item: T,
    place: int,
) -> bool {
    0 <= place < s.len() && rel(item, s[place]) is Equal
}

/// Where the place that was found has nothing of equal rank with the item
/// before it, the sequence is split there: all that comes before the place
/// must stand before the item, and all that comes from the place on may stand
/// after it.
pub proof fn lemma_place_splits<T>(
    rel: spec_fn(T, T) -> Ordering,
    ascending: bool,
    s: Seq<T>,
    item: T,
    place: int,
)
    requires
        is_place(rel, ascending, s, item, place),
        forall|k: int| 0 <= k < place ==> !(rel(item, #[trigger] s[k]) is Equal),
    ensures
        forall|k: int| 0 <= k < place ==> says_after(rel(item, #[trigger] s[k]), ascending),
        forall|k: int| place <= k < s.len() ==> precedes(rel, ascending, item, #[trigger] s[k]),
{
    assert forall|k: int| 0 <= k < place
        implies says_after(rel(item, #[trigger] s[k]), ascending) by {
        assert(!says_before(rel(item, s[k]), ascending));
        assert(!(rel(item, s[k]) is Equal));
    }
}

/// An item that must stand before an element of an ordered sequence must
/// stand before all that come after that element.
pub proof fn lemma_rank_below<T>(
    rel: spec_fn(T, T) -> Ordering,
    ascending: bool,
    s: Seq<T>,
    item: T,
    middle: int,
)
    requires
        weak_order(rel),
        ordered(rel, ascending, s),
        0 <= middle < s.len(),
        says_before(rel(item, s[middle]), ascending),
    ensures
        forall|k: int| middle <= k < s.len() ==> says_before(rel(item, #[trigger] s[k]), ascending),
{
    assert forall|k: int| middle <= k < s.len()
        implies says_before(rel(item, #[trigger] s[k]), ascending) by {
        if middle < k {
            lemma_ordered_pair(rel, ascending, s, middle, k);
            priority::lemma_precedes_total(rel, ascending, item, s[k]);
            priority::lemma_precedes_total(rel, ascending, item, s[middle]);
            if !says_before(rel(item, s[k]), ascending) {
                priority::lemma_precedes_transitive(rel, ascending, s[middle], s[k], item);
            }
        }
    }
}

/// An item that must stand after an element of an ordered sequence must
/// stand after all that come before that element.
pub proof fn lemma_rank_above<T>(
    rel: spec_fn(T, T) -> Ordering,
    ascending: bool,
    s: Seq<T>,
    item: T,
    middle: int,
)
    requires
        weak_order(rel),
        ordered(rel, ascending, s),
        0 <= middle < s.len(),
        says_after(rel(item, s[middle]), ascending),
    ensures
        forall|k: int| 0 <= k <= middle ==> says_after(rel(item, #[trigger] s[k]), ascending),
{
    assert forall|k: int| 0 <= k <= middle
        implies says_after(rel(item, #[trigger] s[k]), ascending) by {
        if k < middle {
            lemma_ordered_pair(rel, ascending, s, k, middle);
            priority::lemma_precedes_total(rel, ascending, item, s[k]);
            priority::lemma_precedes_total(rel, ascending, item, s[middle]);
            if !says_after(rel(item, s[k]), ascending) {
                priority::lemma_precedes_transitive(rel, ascending, item, s[k], s[middle]);
            }
        }
    }
}

/// An item of equal rank with an element of an ordered sequence may stand
/// after all that come before that element and before all that come after
/// it.
pub proof fn lemma_rank_equal<T>(
    rel: spec_fn(T, T) -> Ordering,
    ascending: bool,
    s: Seq<T>,
    item: T,
    middle: int,
)
    requires
        weak_order(rel),
        ordered(rel, ascending, s),
        0 <= middle < s.len(),
        rel(item, s[middle]) is Equal,
    ensures
        forall|k: int| 0 <= k <= middle ==> !says_before(rel(item, #[trigger] s[k]), ascending),
        forall|k: int| middle <= k < s.len() ==> !says_after(rel(item, #[trigger] s[k]), ascending),
{
    priority::lemma_precedes_total(rel, ascending, item, s[middle]);
    assert forall|k: int| 0 <= k <= middle
        implies !says_before(rel(item, #[trigger] s[k]), ascending) by {
        if k < middle {
            lemma_ordered_pair(rel, ascending, s, k, middle);
            priority::lemma_precedes_total(rel, ascending, item, s[k]);
            priority::lemma_precedes_transitive(rel, ascending, s[k], s[middle], item);
        }
    }
    assert forall|k: int| middle <= k < s.len()
        implies !says_after(rel(item, #[trigger] s[k]), ascending) by {
        if middle < k {
            lemma_ordered_pair(rel, ascending, s, middle, k);
            priority::lemma_precedes_transitive(rel, ascending, item, s[middle], s[k]);
        }
    }
}

/// The search within `1..len` has narrowed to `left..=right`: the item may
/// stand after the first element, must stand after the others before
/// `left`, and must stand before those after `right`.
pub open spec fn narrowed<T>(
    rel: spec_fn(T, T) -> Ordering,
    ascending: bool,
    s: Seq<T>,
    item: T,
    left: int,
    right: int,
) -> bool {
    &&& 2 <= s.len()
    &&& 1 <= left <= right + 1 <= s.len()
    &&& !says_before(rel(item, s[0]), ascending)
    &&& forall|k: int| 1 <= k < left ==> says_after(rel(item, #[trigger] s[k]), ascending)
    &&& forall|k: int| right < k < s.len() ==> says_before(rel(item, #[trigger] s[k]), ascending)
}

/// A search that has narrowed to nothing has found the place.
pub proof fn lemma_narrowed_out<T>(
    rel: spec_fn(T, T) -> Ordering,
    ascending: bool,
    s: Seq<T>,
    item: T,
    left: int,
)
    requires
        weak_order(rel),
        ordered(rel, ascending, s),
        narrowed(rel, ascending, s, item, left, left - 1),
    ensures
        is_place(rel, ascending, s, item, left),
{
    assert forall|k: int| 0 <= k < left
        implies !says_before(rel(item, #[trigger] s[k]), ascending) by {
        if k >= 1 {
            assert(says_after(rel(item, s[k]), ascending));
        }
    }
    assert forall|k: int| left <= k < s.len()
        implies !says_after(rel(item, #[trigger] s[k]), ascending) by {
        assert(says_before(rel(item, s[k]), ascending));
    }
    if rel(item, s[0]) is Equal {
        if left > 1 {
            lemma_rank_equal(rel, ascending, s, item, 0);
            assert(says_after(rel(item, s[1]), ascending));
        }
    } else {
        assert forall|k: int| 0 <= k < left
            implies says_after(rel(item, #[trigger] s[k]), ascending) by {}
    }
}

/// Find where an `item` should be in an ordered `sequence`, by the natural
/// order of its elements. This function does not check that the sequence is
/// ordered, hence the "unchecked" in its name; on a sequence that is not,
/// it returns some place of it, or its length.
///
/// If an element of equal rank with the item is found, its place is
/// returned; if there are several, that of any of them. If none is found,
/// the place is returned where the item can be put in. The first element of
/// a sequence of two or more is not looked at for a match.
pub fn binarysearch_unchecked<T: Ord>(
    sequence: &[T],
    item: &T,
    ascending: bool,
) -> (location: usize)
    requires
        vstd::laws_cmp::obeys_cmp::<T>(),
    ensures
        location <= sequence@.len(),
        ordered(natural::<T>(), ascending, sequence@)
            ==> is_place(natural::<T>(), ascending, sequence@, *item, pos(location)),
{
    proof {
        priority::lemma_natural_weak_order::<T>();
        reveal(vstd::laws_cmp::obeys_cmp_ord);
    }
    let by = |a: &T, b: &T| -> (o: Ordering)
        ensures
            o == a.cmp_spec(b),
        { a.cmp(b) };
    assert(decides(by, natural::<T>()));
    binarysearch_unchecked_by(sequence, item, ascending, by)
}

/// Find where an `item` should be in an ordered `sequence`, by the order
/// that `compare` tells. This function does not check that the sequence is
/// ordered, hence the "unchecked" in its name; on a sequence that is not,
/// it returns some place of it, or its length.
///
/// If an element of equal rank with the item is found, its place is
/// returned; if there are several, that of any of them. If none is found,
/// the place is returned where the item can be put in. The first element of
/// a sequence of two or more is not looked at for a match.
pub fn binarysearch_unchecked_by<T, F>(
    sequence: &[T],
    item: &T,
    ascending: bool,
    compare: F,
) -> (location: usize) where F: Fn(&T, &T) -> Ordering + Copy
    requires
        callable(compare),
    ensures
        location <= sequence@.len(),
        forall|rel: spec_fn(T, T) -> Ordering| #[trigger] decides(compare, rel) && weak_order(rel)
            && ordered(rel, ascending, sequence@)
            ==> is_place(rel, ascending, sequence@, *item, pos(location)),
{
    let length = sequence.len();
    if length == 0 {
        return 0;
    } else if length == 1 {
        let ordering = compare(item, &sequence[0]);
        return if ascending {
            if priority::is_le(ordering) {
                0
            } else {
                1
            }
        } else {
            if priority::is_ge(ordering) {
                0
            } else {
                1
            }
        };
    }
    if priority::is_before(compare(item, &sequence[0]), ascending) {
        proof {
            assert forall|rel: spec_fn(T, T) -> Ordering|
                #[trigger] decides(compare, rel) && weak_order(rel)
                && ordered(rel, ascending, sequence@)
                implies is_place(rel, ascending, sequence@, *item, 0) by {
                lemma_rank_below(rel, ascending, sequence@, *item, 0);
            }
        }
        return 0;
    } else if priority::is_after(compare(item, &sequence[length - 1]), ascending) {
        proof {
            assert forall|rel: spec_fn(T, T) -> Ordering|
                #[trigger] decides(compare, rel) && weak_order(rel)
                && ordered(rel, ascending, sequence@)
                implies is_place(rel, ascending, sequence@, *item, pos(length)) by {
                lemma_rank_above(rel, ascending, sequence@, *item, length - 1);
            }
        }
        return length;
    }
    // The item belongs after the first element and not after the last: the
    // search goes on among the places from the second one on.
    let mut left: usize = 1;
    let mut right: usize = length - 1;
    while left <= right
        invariant
            callable(compare),
            length == sequence@.len(),
            1 <= left <= right + 1 <= length,
            forall|rel: spec_fn(T, T) -> Ordering|
                #[trigger] decides(compare, rel) && weak_order(rel)
                && ordered(rel, ascending, sequence@)
                ==> narrowed(rel, ascending, sequence@, *item, pos(left), pos(right)),
        decreases right + 1 - left,
    {
        let middle = left + (right - left) / 2;
        let ordering = compare(item, &sequence[middle]);
        if priority::is_eq(ordering) {
            proof {
                assert forall|rel: spec_fn(T, T) -> Ordering|
                    #[trigger] decides(compare, rel) && weak_order(rel)
                    && ordered(rel, ascending, sequence@)
                    implies is_place(rel, ascending, sequence@, *item, pos(middle)) by {
                    lemma_rank_equal(rel, ascending, sequence@, *item, pos(middle));
                }
            }
            return middle;
        } else if priority::is_before(ordering, ascending) {
            proof {
                assert forall|rel: spec_fn(T, T) -> Ordering|
                    #[trigger] decides(compare, rel) && weak_order(rel)
                    && ordered(rel, ascending, sequence@)
                    implies narrowed(rel, ascending, sequence@, *item, pos(left), middle - 1) by {
                    lemma_rank_below(rel, ascending, sequence@, *item, pos(middle));
                }
            }
            right = middle - 1;
        } else {
            proof {
                assert forall|rel: spec_fn(T, T) -> Ordering|
                    #[trigger] decides(compare, rel) && weak_order(rel)
                    && ordered(rel, ascending, sequence@)
                    implies narrowed(rel, ascending, sequence@, *item, middle + 1, pos(right)) by {
                    lemma_rank_above(rel, ascending, sequence@, *item, pos(middle));
                }
            }
            left = middle + 1;
        }
    }
    proof {
        assert forall|rel: spec_fn(T, T) -> Ordering|
            #[trigger] decides(compare, rel) && weak_order(rel)
            && ordered(rel, ascending, sequence@)
            implies is_place(rel, ascending, sequence@, *item, pos(left)) by {
            lemma_narrowed_out(rel, ascending, sequence@, *item, pos(left));
        }
    }
    left
}

/// The place that a search reports, be it that of a match or that where the
/// item can be put in.
pub open spec fn place_of(found: Result<usize, usize>) -> int {
    match found {
        Ok(place) => pos(place),
        Err(place) => pos(place),
    }
}

/// What a search reports is right: the place is where the item belongs, and
/// it is reported as a match if and only if an element of equal rank stands
/// there.
pub open spec fn is_found<T>(
    rel: spec_fn(T, T) -> Ordering,
    ascending: bool,
    s: Seq<T>,
    item: T,
    found: Result<usize, usize>,
) -> bool {
    &&& is_place(rel, ascending, s, item, place_of(found))
    &&& found is Ok <==> is_match(rel, s, item, place_of(found))
}

/// Find where an `item` should be in an ordered `sequence`, by the natural
/// order of its elements. This function checks that the sequence is ordered.
///
/// If an element of equal rank with the item is found, `Ok(Ok(location))` is
/// returned with its place; if there are several, with that of any of them.
/// If none is found, `Ok(Err(location))` is returned with the place where the
/// item can be put in; for an item that belongs after the last element that
/// is the length of the sequence. The first element of a sequence of two or
/// more is not looked at for a match.
///
/// # Errors
///
/// `Unordered` if the sequence is not ordered in the given direction.
pub fn binarysearch<T: Ord>(
    sequence: &[T],
    item: &T,
    ascending: bool,
) -> (result: AgcResult<Result<usize, usize>>)
    requires
        vstd::laws_cmp::obeys_cmp::<T>(),
    ensures
        match result {
            Ok(found) => {
                &&& ordered(natural::<T>(), ascending, sequence@)
                &&& is_found(natural::<T>(), ascending, sequence@, *item, found)
            },
            Err(error) => {
                &&& !ordered(natural::<T>(), ascending, sequence@)
                &&& error@ == (AgcErrorKind::Unordered, "sequence is not sorted."@)
            },
        },
{
    proof {
        reveal(vstd::laws_cmp::obeys_cmp_ord);
    }
    if !is_sorted(sequence, ascending) {
        return Err(AgcError::new(AgcErrorKind::Unordered, "sequence is not sorted."));
    }
    let location = binarysearch_unchecked(sequence, item, ascending);
    if location < sequence.len() && priority::eq(item, &sequence[location]) {
        Ok(Ok(location))
    } else {
        Ok(Err(location))
    }
}

/// Find where an `item` should be in an ordered `sequence`, by the order
/// that `compare` tells. This function checks that the sequence is ordered.
///
/// If an element of equal rank with the item is found, `Ok(Ok(location))` is
/// returned with its place; if there are several, with that of any of them.
/// If none is found, `Ok(Err(location))` is returned with the place where the
/// item can be put in; for an item that belongs after the last element that
/// is the length of the sequence. The first element of a sequence of two or
/// more is not looked at for a match.
///
/// # Errors
///
/// `Unordered` if the sequence is not ordered in the given direction.
pub fn binarysearch_by<T, F>(
    sequence: &[T],
    item: &T,
    ascending: bool,
    compare: F,
) -> (result: AgcResult<Result<usize, usize>>) where F: Fn(&T, &T) -> Ordering + Copy
    requires
        callable(compare),
    ensures
        match result {
            Ok(found) => {
                &&& place_of(found) <= sequence@.len()
                &&& forall|rel: spec_fn(T, T) -> Ordering| #[trigger]
                    decides(compare, rel) ==> ordered(rel, ascending, sequence@)
                &&& forall|rel: spec_fn(T, T) -> Ordering| #[trigger]
                    decides(compare, rel) && weak_order(rel)
                        ==> is_found(rel, ascending, sequence@, *item, found)
            },
            Err(error) => {
                &&& forall|rel: spec_fn(T, T) -> Ordering| #[trigger]
                    decides(compare, rel) ==> !ordered(rel, ascending, sequence@)
                &&& error@ == (AgcErrorKind::Unordered, "sequence is not sorted."@)
            },
        },
{
    if !is_sorted_by(sequence, ascending, compare) {
        return Err(AgcError::new(AgcErrorKind::Unordered, "sequence is not sorted."));
    }
    let location = binarysearch_unchecked_by(sequence, item, ascending, compare);
    if location < sequence.len() && priority::is_eq(compare(item, &sequence[location])) {
        Ok(Ok(location))
    } else {
        Ok(Err(location))
    }
}

} // verus!
