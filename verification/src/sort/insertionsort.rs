//! Insertion sort.

use crate::error::AgcResult;
use crate::sort::{
    already_sorted, is_stable_sorting, lemma_respects_swap, ordered_between, respects,
    sorts_stably_by,
};
use crate::utils::priority;
use crate::utils::priority::{callable, decides, natural, precedes, weak_order};
use crate::utils::slice::{lemma_swapped_multiset, pos, swapped};
use std::cmp::Ordering;
use vstd::prelude::*;
use vstd::std_specs::cmp::OrdSpec;

verus! {

/// The element at `place` is on its way down into the ordered run `0..index`:
/// the other elements of `0..=index` are in order among themselves, and
/// those that it has passed may stand after it.
pub open spec fn inserting<T>(
    rel: spec_fn(T, T) -> Ordering,
    ascending: bool,
    s: Seq<T>,
    place: int,
    index: int,
) -> bool {
    &&& 0 <= place <= index < s.len()
    &&& forall|i: int, j: int|
        0 <= i < j <= index && i != place && j != place
            ==> precedes(rel, ascending, #[trigger] s[i], #[trigger] s[j])
    &&& forall|j: int| place < j <= index ==> precedes(rel, ascending, s[place], #[trigger] s[j])
}

/// An element that must not stand after its left neighbour changes places
/// with it and is still on its way down.
pub proof fn lemma_insertion_sinks<T>(
    rel: spec_fn(T, T) -> Ordering,
    ascending: bool,
    s: Seq<T>,
    place: int,
    index: int,
)
    requires
        weak_order(rel),
        inserting(rel, ascending, s, place, index),
        place > 0,
        !precedes(rel, ascending, s[place - 1], s[place]),
    ensures
        inserting(rel, ascending, swapped(s, place - 1, place), place - 1, index),
{
    let t = swapped(s, place - 1, place);
    priority::lemma_precedes_total(rel, ascending, s[place - 1], s[place]);
    assert forall|i: int, j: int|
        0 <= i < j <= index && i != place - 1 && j != place - 1
        implies precedes(rel, ascending, #[trigger] t[i], #[trigger] t[j]) by {
        if i == place {
            assert(precedes(rel, ascending, s[place - 1], s[j]));
        } else if j == place {
            assert(precedes(rel, ascending, s[i], s[place - 1]));
        } else {
            assert(precedes(rel, ascending, s[i], s[j]));
        }
    }
    assert forall|j: int| place - 1 < j <= index
        implies precedes(rel, ascending, t[place - 1], #[trigger] t[j]) by {
        if j > place {
            assert(precedes(rel, ascending, s[place], s[j]));
        }
    }
}

/// An element that has come to the front, or may stand after its left
/// neighbour, has found its place: the run is ordered and longer by one.
pub proof fn lemma_insertion_rests<T>(
    rel: spec_fn(T, T) -> Ordering,
    ascending: bool,
    s: Seq<T>,
    place: int,
    index: int,
)
    requires
        weak_order(rel),
        inserting(rel, ascending, s, place, index),
        place == 0 || precedes(rel, ascending, s[place - 1], s[place]),
    ensures
        ordered_between(rel, ascending, s, 0, index + 1),
{
    assert forall|i: int, j: int| 0 <= i < j < index + 1
        implies precedes(rel, ascending, #[trigger] s[i], #[trigger] s[j]) by {
        if j == place {
            if i < place - 1 {
                assert(precedes(rel, ascending, s[i], s[place - 1]));
                priority::lemma_precedes_transitive(rel, ascending, s[i], s[place - 1], s[place]);
            }
        } else if i == place {
            assert(precedes(rel, ascending, s[place], s[j]));
        } else {
            assert(precedes(rel, ascending, s[i], s[j]));
        }
    }
}

/// Sorts a slice by insertion sort, by the natural order of its elements.
///
/// The slice is ordered from the front: each element in turn changes places
/// with its left neighbour until it has come to the front or may stand after
/// that neighbour. Elements of equal rank keep their order.
pub fn insertionsort<T: Ord>(sequence: &mut [T], ascending: bool) -> (result: AgcResult<&mut [T]>)
    requires
        vstd::laws_cmp::obeys_cmp::<T>(),
    ensures
        match result {
            Ok(sorted) => {
                &&& final(sequence)@ == final(sorted)@
                &&& is_stable_sorting(natural::<T>(), ascending, old(sequence)@, sorted@)
            },
            Err(_) => false,
        },
{
    proof {
        priority::lemma_natural_weak_order::<T>();
        reveal(vstd::laws_cmp::obeys_cmp_ord);
    }
    let by = |a: &T, b: &T| -> (o: Ordering)
        ensures
            o == a.cmp_spec(b),
        { a.cmp(b) };
    assert(decides(by, natural::<T>()));
    insertionsort_by(sequence, ascending, by)
}

/// Sorts a slice by insertion sort, by the order that `compare` tells.
///
/// The slice is ordered from the front: each element in turn changes places
/// with its left neighbour until it has come to the front or may stand after
/// that neighbour. Elements of equal rank keep their order.
pub fn insertionsort_by<T, F>(
    sequence: &mut [T],
    ascending: bool,
    compare: F,
) -> (result: AgcResult<&mut [T]>) where F: Fn(&T, &T) -> Ordering + Copy
    requires
        callable(compare),
    ensures
        match result {
            Ok(sorted) => {
                &&& final(sequence)@ == final(sorted)@
                &&& sorts_stably_by(compare, ascending, old(sequence)@, sorted@)
            },
            Err(_) => false,
        },
{
    let length = sequence.len();
    if already_sorted(length) {
        return Ok(sequence);
    }
    for index in 1..length
        invariant
            callable(compare),
            length == sequence@.len(),
            length == old(sequence)@.len(),
            sequence@.to_multiset() == old(sequence)@.to_multiset(),
            forall|rel: spec_fn(T, T) -> Ordering|
                #[trigger] decides(compare, rel) && weak_order(rel)
                ==> ordered_between(rel, ascending, sequence@, 0, pos(index))
                && respects(rel, ascending, old(sequence)@, sequence@),
    {
        // Where the element stands that is on its way down.
        let mut location = index;
        while location > 0
            && priority::is_after(compare(&sequence[location - 1], &sequence[location]), ascending)
            invariant
                callable(compare),
                length == sequence@.len(),
                location <= index < length,
                sequence@.to_multiset() == old(sequence)@.to_multiset(),
                forall|rel: spec_fn(T, T) -> Ordering|
                    #[trigger] decides(compare, rel) && weak_order(rel)
                    ==> inserting(rel, ascending, sequence@, pos(location), pos(index))
                    && respects(rel, ascending, old(sequence)@, sequence@),
            decreases location,
        {
            proof {
                let s = sequence@;
                let t = swapped(s, location - 1, pos(location));
                assert forall|rel: spec_fn(T, T) -> Ordering|
                    #[trigger] decides(compare, rel) && weak_order(rel)
                    implies inserting(rel, ascending, t, location - 1, pos(index))
                    && respects(rel, ascending, old(sequence)@, t) by {
                    lemma_insertion_sinks(rel, ascending, s, pos(location), pos(index));
                    lemma_respects_swap(rel, ascending, old(sequence)@, s, location - 1);
                }
                lemma_swapped_multiset(s, location - 1, pos(location));
            }
            sequence.swap(location - 1, location);
            location -= 1;
        }
        proof {
            assert forall|rel: spec_fn(T, T) -> Ordering|
                #[trigger] decides(compare, rel) && weak_order(rel)
                implies ordered_between(rel, ascending, sequence@, 0, index + 1) by {
                lemma_insertion_rests(rel, ascending, sequence@, pos(location), pos(index));
            }
        }
    }
    Ok(sequence)
}

} // verus!
