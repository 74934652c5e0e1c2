//! Bubble sort.

use crate::error::AgcResult;
use crate::sort::{
    already_sorted, is_stable_sorting, lemma_respects_swap, ordered, respects, sorts_stably_by,
};
use crate::utils::priority;
use crate::utils::priority::{decides, is_weak_order, natural, precedes, weak_order};
use crate::utils::slice::{lemma_swapped_multiset, pos, span, swapped};
use std::cmp::Ordering;
use vstd::prelude::*;
use vstd::std_specs::cmp::OrdSpec;

verus! {

/// The last `done` places are settled: every element may stand before those
/// that come after it in these places.
pub open spec fn bubbled<T>(
    rel: spec_fn(T, T) -> Ordering,
    ascending: bool,
    s: Seq<T>,
    done: int,
) -> bool {
    forall|i: int, j: int|
        0 <= i < j < s.len() && s.len() - done <= j
            ==> precedes(rel, ascending, #[trigger] s[i], #[trigger] s[j])
}

/// A pass has come to `index`: the element before it may stand after all
/// that come before it, and once the pass has reached the settled places
/// the element before them may stand after all that come before it.
pub open spec fn rising<T>(
    rel: spec_fn(T, T) -> Ordering,
    ascending: bool,
    s: Seq<T>,
    done: int,
    index: int,
) -> bool {
    &&& forall|i: int| 0 <= i < index ==> precedes(rel, ascending, #[trigger] s[i], s[index - 1])
    &&& s.len() - done <= index && done < s.len() ==> forall|i: int|
        0 <= i < s.len() - done ==> precedes(rel, ascending, #[trigger] s[i], s[s.len() - done - 1])
}

/// A pass starts.
pub proof fn lemma_pass_starts<T>(
    rel: spec_fn(T, T) -> Ordering,
    ascending: bool,
    s: Seq<T>,
    done: int,
)
    requires
        weak_order(rel),
        0 <= done <= s.len(),
        s.len() > 1,
        bubbled(rel, ascending, s, done),
    ensures
        rising(rel, ascending, s, done, 1),
{
    priority::lemma_precedes_total(rel, ascending, s[0], s[0]);
    if s.len() - done <= 1 && done < s.len() {
        assert forall|i: int| 0 <= i < s.len() - done
            implies precedes(rel, ascending, #[trigger] s[i], s[s.len() - done - 1]) by {}
    }
}

/// Two neighbours that are in order are passed over.
pub proof fn lemma_pass_keeps<T>(
    rel: spec_fn(T, T) -> Ordering,
    ascending: bool,
    s: Seq<T>,
    done: int,
    index: int,
)
    requires
        weak_order(rel),
        0 <= done <= s.len(),
        1 <= index < s.len(),
        bubbled(rel, ascending, s, done),
        rising(rel, ascending, s, done, index),
        precedes(rel, ascending, s[index - 1], s[index]),
    ensures
        rising(rel, ascending, s, done, index + 1),
{
    priority::lemma_precedes_total(rel, ascending, s[index], s[index]);
    assert forall|i: int| 0 <= i < index + 1
        implies precedes(rel, ascending, #[trigger] s[i], s[index]) by {
        if i < index {
            assert(precedes(rel, ascending, s[i], s[index - 1]));
            priority::lemma_precedes_transitive(rel, ascending, s[i], s[index - 1], s[index]);
        }
    }
}

/// Two neighbours that are out of order are exchanged: they lie before the
/// settled places, which stay settled, and not all places were settled.
pub proof fn lemma_pass_swaps<T>(
    rel: spec_fn(T, T) -> Ordering,
    ascending: bool,
    s: Seq<T>,
    done: int,
    index: int,
)
    requires
        weak_order(rel),
        0 <= done <= s.len(),
        1 <= index < s.len(),
        bubbled(rel, ascending, s, done),
        rising(rel, ascending, s, done, index),
        !precedes(rel, ascending, s[index - 1], s[index]),
    ensures
        index < s.len() - done,
        bubbled(rel, ascending, swapped(s, index, index - 1), done),
        rising(rel, ascending, swapped(s, index, index - 1), done, index + 1),
{
    let t = swapped(s, index, index - 1);
    priority::lemma_precedes_total(rel, ascending, s[index - 1], s[index]);
    priority::lemma_precedes_total(rel, ascending, s[index - 1], s[index - 1]);
    assert(index < s.len() - done) by {
        if s.len() - done <= index {
            assert(precedes(rel, ascending, s[index - 1], s[index]));
        }
    }
    assert forall|i: int, j: int|
        0 <= i < j < t.len() && t.len() - done <= j implies precedes(
        rel,
        ascending,
        #[trigger] t[i],
        #[trigger] t[j],
    ) by {
        if i == index {
            assert(precedes(rel, ascending, s[index - 1], s[j]));
        } else if i == index - 1 {
            assert(precedes(rel, ascending, s[index], s[j]));
        } else {
            assert(precedes(rel, ascending, s[i], s[j]));
        }
    }
    assert forall|i: int| 0 <= i < index + 1
        implies precedes(rel, ascending, #[trigger] t[i], t[index]) by {
        if i < index - 1 {
            assert(precedes(rel, ascending, s[i], s[index - 1]));
        }
    }
}

/// After a pass, one more place is settled.
pub proof fn lemma_pass_ends<T>(
    rel: spec_fn(T, T) -> Ordering,
    ascending: bool,
    s: Seq<T>,
    done: int,
)
    requires
        weak_order(rel),
        0 <= done < s.len(),
        bubbled(rel, ascending, s, done),
        rising(rel, ascending, s, done, span(s)),
    ensures
        bubbled(rel, ascending, s, done + 1),
{
    assert forall|i: int, j: int|
        0 <= i < j < s.len() && s.len() - (done + 1) <= j implies precedes(
        rel,
        ascending,
        #[trigger] s[i],
        #[trigger] s[j],
    ) by {
        if j == s.len() - done - 1 {
            assert(precedes(rel, ascending, s[i], s[s.len() - done - 1]));
        }
    }
}


/// Sorts a slice by bubble sort, by the natural order of its elements.
///
/// The slice is passed over from the front again and again, and two
/// neighbours that are out of order change places, until a pass finds
/// nothing to exchange. Elements of equal rank keep their order.
pub fn bubblesort<T: Ord>(sequence: &mut [T], ascending: bool) -> (result: AgcResult<&mut [T]>)
    requires
        vstd::laws_cmp::obeys_cmp::<T>(),
    ensures
        match result {
            Ok(sorted) => {
                &&& final(sequence)@ == final(sorted)@
                &&& is_stable_sorting(natural::<T>(), ascending, old(sequence)@, sorted@)
            },
            Err(_) => false,
        },
{
    proof {
        priority::lemma_natural_weak_order::<T>();
        reveal(vstd::laws_cmp::obeys_cmp_ord);
    }
    let by = |a: &T, b: &T| -> (o: Ordering)
        ensures
            o == a.cmp_spec(b),
        { a.cmp(b) };
    assert(decides(by, natural::<T>()));
    bubblesort_by(sequence, ascending, by)
}

/// Sorts a slice by bubble sort, by the order that `compare` tells.
///
/// The slice is passed over from the front again and again, and two
/// neighbours that are out of order change places, until a pass finds
/// nothing to exchange. Elements of equal rank keep their order.
///
/// The passes come to an end because the answers of `compare` are those of a
/// weak order: each pass that exchanges anything settles one more place at
/// the end of the slice.
pub fn bubblesort_by<T, F>(
    sequence: &mut [T],
    ascending: bool,
    compare: F,
) -> (result: AgcResult<&mut [T]>) where F: Fn(&T, &T) -> Ordering + Copy
    requires
        is_weak_order(compare),
    ensures
        match result {
            Ok(sorted) => {
                &&& final(sequence)@ == final(sorted)@
                &&& sorts_stably_by(compare, ascending, old(sequence)@, sorted@)
            },
            Err(_) => false,
        },
{
    let length = sequence.len();
    if already_sorted(length) {
        return Ok(sequence);
    }
    // A weak order that `compare` decides, and the number of places at the
    // end of the slice that the passes have settled by it.
    let ghost order = choose|rel: spec_fn(T, T) -> Ordering| #[trigger]
        decides(compare, rel) && weak_order(rel);
    let ghost mut done: int = 0;
    let mut sorted = false;
    while !sorted
        invariant
            is_weak_order(compare),
            decides(compare, order),
            weak_order(order),
            length == sequence@.len(),
            length == old(sequence)@.len(),
            length > 1,
            0 <= done < length,
            sequence@.to_multiset() == old(sequence)@.to_multiset(),
            bubbled(order, ascending, sequence@, done),
            sorted ==> forall|rel: spec_fn(T, T) -> Ordering| #[trigger] decides(compare, rel)
                ==> ordered(rel, ascending, sequence@),
            forall|rel: spec_fn(T, T) -> Ordering|
                #[trigger] decides(compare, rel) && weak_order(rel)
                ==> respects(rel, ascending, old(sequence)@, sequence@),
        decreases
                length - done + if sorted {
                    0int
                } else {
                    1int
                },
    {
        sorted = true;
        proof {
            lemma_pass_starts(order, ascending, sequence@, done);
        }
        for index in 1..length
            invariant
                is_weak_order(compare),
                decides(compare, order),
                weak_order(order),
                length == sequence@.len(),
                length > 1,
                0 <= done < length,
                sequence@.to_multiset() == old(sequence)@.to_multiset(),
                bubbled(order, ascending, sequence@, done),
                rising(order, ascending, sequence@, done, pos(index)),
                !sorted ==> done + 1 < length,
                sorted ==> forall|rel: spec_fn(T, T) -> Ordering, i: int|
                    #![trigger decides(compare, rel), sequence@[i]]
                    decides(compare, rel) && 0 <= i && i + 1 < index
                        ==> precedes(rel, ascending, sequence@[i], sequence@[i + 1]),
                forall|rel: spec_fn(T, T) -> Ordering|
                    #[trigger] decides(compare, rel) && weak_order(rel)
                    ==> respects(rel, ascending, old(sequence)@, sequence@),
        {
            if priority::is_after(compare(&sequence[index - 1], &sequence[index]), ascending) {
                proof {
                    let s = sequence@;
                    let t = swapped(s, pos(index), index - 1);
                    assert(t =~= swapped(s, index - 1, pos(index)));
                    lemma_pass_swaps(order, ascending, s, done, pos(index));
                    lemma_swapped_multiset(s, pos(index), index - 1);
                    assert forall|rel: spec_fn(T, T) -> Ordering|
                        #[trigger] decides(compare, rel) && weak_order(rel)
                        implies respects(rel, ascending, old(sequence)@, t) by {
                        lemma_respects_swap(rel, ascending, old(sequence)@, s, index - 1);
                    }
                }
                sequence.swap(index, index - 1);
                sorted = false;
            } else {
                proof {
                    lemma_pass_keeps(order, ascending, sequence@, done, pos(index));
                }
            }
        }
        proof {
            if !sorted {
                lemma_pass_ends(order, ascending, sequence@, done);
                done = done + 1;
            }
        }
    }
    Ok(sequence)
}

} // verus!
