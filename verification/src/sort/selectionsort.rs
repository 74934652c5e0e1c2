//! Selection sort.

use crate::error::AgcResult;
use crate::sort::{
    already_sorted, is_stable_sorting, lemma_respects_move, ordered_between, respects,
    sorts_stably_by,
};
use crate::utils::priority;
use crate::utils::priority::{callable, decides, natural, precedes, says_before, weak_order};
use crate::utils::slice::{
    lemma_moved_index, lemma_moved_multiset, moved, pos, span, transfer_element,
};
use std::cmp::Ordering;
use vstd::prelude::*;
use vstd::std_specs::cmp::OrdSpec;

verus! {

/// The first `done` places are settled: they are in order, and what stands
/// in them may stand before everything that comes after them.
pub open spec fn selected<T>(
    rel: spec_fn(T, T) -> Ordering,
    ascending: bool,
    s: Seq<T>,
    done: int,
) -> bool {
    &&& ordered_between(rel, ascending, s, 0, done)
    &&& forall|i: int, j: int|
        0 <= i < done <= j < s.len() ==> precedes(rel, ascending, #[trigger] s[i], #[trigger] s[j])
}

/// The element at `extreme` may stand before each element of `from..upto`,
/// and must stand before those that come before it there.
pub open spec fn is_extreme<T>(
    rel: spec_fn(T, T) -> Ordering,
    ascending: bool,
    s: Seq<T>,
    extreme: int,
    from: int,
    upto: int,
) -> bool {
    &&& from <= extreme < s.len()
    &&& forall|j: int| from <= j < upto ==> precedes(rel, ascending, s[extreme], #[trigger] s[j])
    &&& forall|j: int| from <= j < extreme
        ==> !precedes(rel, ascending, #[trigger] s[j], s[extreme])
}

/// The search for the extreme goes on by one element: either that element
/// must stand before the extreme so far and takes its place, or the extreme
/// stays.
pub proof fn lemma_extreme_next<T>(
    rel: spec_fn(T, T) -> Ordering,
    ascending: bool,
    s: Seq<T>,
    extreme: int,
    from: int,
    index: int,
)
    requires
        weak_order(rel),
        0 <= from <= extreme < index < s.len(),
        is_extreme(rel, ascending, s, extreme, from, index),
    ensures
        says_before(rel(s[index], s[extreme]), ascending)
            ==> is_extreme(rel, ascending, s, index, from, index + 1),
        !says_before(rel(s[index], s[extreme]), ascending)
            ==> is_extreme(rel, ascending, s, extreme, from, index + 1),
{
    priority::lemma_precedes_total(rel, ascending, s[index], s[extreme]);
    priority::lemma_precedes_total(rel, ascending, s[index], s[index]);
    if says_before(rel(s[index], s[extreme]), ascending) {
        assert forall|j: int| from <= j < index + 1
            implies precedes(rel, ascending, s[index], #[trigger] s[j]) by {
            if j < index {
                priority::lemma_precedes_transitive(rel, ascending, s[index], s[extreme], s[j]);
            }
        }
        assert forall|j: int| from <= j < index
            implies !precedes(rel, ascending, #[trigger] s[j], s[index]) by {
            if precedes(rel, ascending, s[j], s[index]) {
                priority::lemma_precedes_transitive(rel, ascending, s[extreme], s[j], s[index]);
            }
        }
    }
}

/// Moving the extreme of what is left to the front of it settles one more
/// place.
pub proof fn lemma_selection_settles<T>(
    rel: spec_fn(T, T) -> Ordering,
    ascending: bool,
    s: Seq<T>,
    extreme: int,
    done: int,
)
    requires
        weak_order(rel),
        0 <= done <= extreme < s.len(),
        selected(rel, ascending, s, done),
        is_extreme(rel, ascending, s, extreme, done, span(s)),
    ensures
        selected(rel, ascending, moved(s, extreme, done), done + 1),
{
    let t = moved(s, extreme, done);
    lemma_moved_index(s, extreme, done);
    assert forall|i: int, j: int| 0 <= i < j < done + 1
        implies precedes(rel, ascending, #[trigger] t[i], #[trigger] t[j]) by {
        if j < done {
            assert(precedes(rel, ascending, s[i], s[j]));
        } else {
            assert(precedes(rel, ascending, s[i], s[extreme]));
        }
    }
    assert forall|i: int, j: int| 0 <= i < done + 1 <= j < t.len()
        implies precedes(rel, ascending, #[trigger] t[i], #[trigger] t[j]) by {
        let origin = if j <= extreme {
            j - 1
        } else {
            j
        };
        assert(t[j] == s[origin]);
        if i < done {
            assert(precedes(rel, ascending, s[i], s[origin]));
        } else {
            assert(precedes(rel, ascending, s[extreme], s[origin]));
        }
    }
}

/// Sorts a slice by selection sort, by the natural order of its elements.
///
/// For each place from the front, the first of the least elements of what is
/// left (of the greatest, if descending) is moved there; the elements that it
/// passes shift by one place and keep their order.
pub fn selectionsort<T: Ord>(sequence: &mut [T], ascending: bool) -> (result: AgcResult<&mut [T]>)
    requires
        vstd::laws_cmp::obeys_cmp::<T>(),
    ensures
        match result {
            Ok(sorted) => {
                &&& final(sequence)@ == final(sorted)@
                &&& is_stable_sorting(natural::<T>(), ascending, old(sequence)@, sorted@)
            },
            Err(_) => false,
        },
{
    proof {
        priority::lemma_natural_weak_order::<T>();
        reveal(vstd::laws_cmp::obeys_cmp_ord);
    }
    let by = |a: &T, b: &T| -> (o: Ordering)
        ensures
            o == a.cmp_spec(b),
        { a.cmp(b) };
    assert(decides(by, natural::<T>()));
    selectionsort_by(sequence, ascending, by)
}

/// Sorts a slice by selection sort, by the order that `compare` tells.
///
/// For each place from the front, the first of the least elements of what is
/// left (of the greatest, if descending) is moved there; the elements that it
/// passes shift by one place and keep their order.
pub fn selectionsort_by<T, F>(
    sequence: &mut [T],
    ascending: bool,
    compare: F,
) -> (result: AgcResult<&mut [T]>) where F: Fn(&T, &T) -> Ordering + Copy
    requires
        callable(compare),
    ensures
        match result {
            Ok(sorted) => {
                &&& final(sequence)@ == final(sorted)@
                &&& sorts_stably_by(compare, ascending, old(sequence)@, sorted@)
            },
            Err(_) => false,
        },
{
    let length = sequence.len();
    if already_sorted(length) {
        return Ok(sequence);
    }
    for subsequence in 0..length
        invariant
            callable(compare),
            length == sequence@.len(),
            length == old(sequence)@.len(),
            sequence@.to_multiset() == old(sequence)@.to_multiset(),
            forall|rel: spec_fn(T, T) -> Ordering|
                #[trigger] decides(compare, rel) && weak_order(rel)
                ==> selected(rel, ascending, sequence@, pos(subsequence))
                && respects(rel, ascending, old(sequence)@, sequence@),
    {
        let mut extreme: usize = subsequence;
        proof {
            assert forall|rel: spec_fn(T, T) -> Ordering|
                #[trigger] decides(compare, rel) && weak_order(rel)
                implies is_extreme(
                    rel, ascending, sequence@, pos(extreme), pos(subsequence), subsequence + 1,
                ) by {
                let first = sequence@[pos(extreme)];
                priority::lemma_precedes_total(rel, ascending, first, first);
            }
        }
        for index in subsequence + 1..length
            invariant
                callable(compare),
                length == sequence@.len(),
                subsequence <= extreme < index,
                forall|rel: spec_fn(T, T) -> Ordering|
                    #[trigger] decides(compare, rel) && weak_order(rel)
                    ==> is_extreme(
                        rel, ascending, sequence@, pos(extreme), pos(subsequence), pos(index),
                    ),
        {
            let before = priority::is_before(
                compare(&sequence[index], &sequence[extreme]),
                ascending,
            );
            proof {
                let next = if before {
                    pos(index)
                } else {
                    pos(extreme)
                };
                assert forall|rel: spec_fn(T, T) -> Ordering|
                    #[trigger] decides(compare, rel) && weak_order(rel)
                    implies is_extreme(
                        rel, ascending, sequence@, next, pos(subsequence), index + 1,
                    ) by {
                    lemma_extreme_next(
                        rel, ascending, sequence@, pos(extreme), pos(subsequence), pos(index),
                    );
                }
            }
            if before {
                extreme = index;
            }
        }
        proof {
            let s = sequence@;
            let t = moved(s, pos(extreme), pos(subsequence));
            assert forall|rel: spec_fn(T, T) -> Ordering|
                #[trigger] decides(compare, rel) && weak_order(rel)
                implies selected(rel, ascending, t, subsequence + 1)
                && respects(rel, ascending, old(sequence)@, t) by {
                lemma_selection_settles(rel, ascending, s, pos(extreme), pos(subsequence));
                lemma_respects_move(
                    rel, ascending, old(sequence)@, s, pos(extreme), pos(subsequence),
                );
            }
            lemma_moved_multiset(s, pos(extreme), pos(subsequence));
        }
        transfer_element(sequence, extreme, subsequence)?;
    }
    Ok(sequence)
}

} // verus!
