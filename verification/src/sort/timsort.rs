//! Timsort: insertion sort on short runs, then merges of the runs.

use crate::error::AgcResult;
use crate::sort::insertionsort::insertionsort_by;
use crate::sort::mergesort::{aligned, merge_runs};
use crate::sort::{
    already_sorted, is_stable_sorting, lemma_respects_part, ordered, respects, sorts_stably_by,
};
use crate::utils::priority;
use crate::utils::priority::{callable, decides, natural, precedes, weak_order};
use crate::utils::slice::{lemma_rearranged_multiset, pos, rearranged};
use std::cmp::Ordering;
use vstd::prelude::*;
use vstd::std_specs::cmp::OrdSpec;

verus! {

/// The width of a run that is used where nothing calls for another.
pub const DEFAULT_RUN: usize = 32;

/// The runs of the given width that end before `upto` are ordered: two
/// neighbours before `upto` are in order unless the second one starts a run.
pub open spec fn runs_ordered_upto<T>(
    rel: spec_fn(T, T) -> Ordering,
    ascending: bool,
    s: Seq<T>,
    width: int,
    upto: int,
) -> bool {
    forall|i: int|
        0 <= i && i + 1 < s.len() && i + 1 < upto && !aligned(i + 1, width)
            ==> precedes(rel, ascending, #[trigger] s[i], s[i + 1])
}

/// Once the run that starts at `offset` is ordered, the runs that end before
/// its end are.
pub proof fn lemma_run_sorted<T>(
    rel: spec_fn(T, T) -> Ordering,
    ascending: bool,
    s: Seq<T>,
    t: Seq<T>,
    width: int,
    offset: int,
    end: int,
)
    requires
        0 < width,
        0 <= offset < end <= s.len(),
        end <= offset + width,
        aligned(offset, width),
        runs_ordered_upto(rel, ascending, s, width, offset),
        rearranged(s, t, offset, end),
        ordered(rel, ascending, t.subrange(offset, end)),
    ensures
        runs_ordered_upto(rel, ascending, t, width, end),
{
    let run = t.subrange(offset, end);
    assert forall|i: int|
        0 <= i && i + 1 < t.len() && i + 1 < end && !aligned(i + 1, width) implies precedes(
        rel,
        ascending,
        #[trigger] t[i],
        t[i + 1],
    ) by {
        if i + 1 < offset {
            assert(precedes(rel, ascending, s[i], s[i + 1]));
        } else if i + 1 > offset {
            assert(precedes(rel, ascending, run[i - offset], run[i - offset + 1]));
        }
    }
}

/// A part of a sequence that was rearranged, with what lies before and after
/// it, is the sequence with that part rearranged.
pub proof fn lemma_part_rearranged<T>(s: Seq<T>, offset: int, end: int, part: Seq<T>)
    requires
        0 <= offset <= end <= s.len(),
        part.to_multiset() == s.subrange(offset, end).to_multiset(),
    ensures
        part.len() == end - offset,
        rearranged(
            s,
            s.subrange(0, offset) + (part + s.subrange(end, s.len() as int)),
            offset,
            end,
        ),
        (s.subrange(0, offset) + (part + s.subrange(end, s.len() as int))).subrange(offset, end)
            == part,
        part == s.subrange(offset, end)
            ==> s.subrange(0, offset) + (part + s.subrange(end, s.len() as int)) == s,
{
    vstd::seq_lib::to_multiset_len(part);
    vstd::seq_lib::to_multiset_len(s.subrange(offset, end));
    let t = s.subrange(0, offset) + (part + s.subrange(end, s.len() as int));
    assert(t.subrange(offset, end) =~= part);
    if part == s.subrange(offset, end) {
        assert(t =~= s);
    }
}

/// Sorts a slice by timsort, by the natural order of its elements.
///
/// A slice that is no longer than `run` is sorted by insertion sort. A
/// longer one is cut into runs of that width, the last of which may be
/// shorter; each run is sorted by insertion sort, and the runs are merged,
/// pair by pair, into runs of twice the width until one run is left.
/// Elements of equal rank keep their order.
///
/// A slice of two or more elements cannot be cut into runs of no width:
/// `run` must then not be zero.
pub fn timsort<T: Ord>(
    sequence: &mut [T],
    ascending: bool,
    run: usize,
) -> (result: AgcResult<&mut [T]>)
    requires
        vstd::laws_cmp::obeys_cmp::<T>(),
        old(sequence)@.len() > 1 ==> run > 0,
    ensures
        match result {
            Ok(sorted) => {
                &&& final(sequence)@ == final(sorted)@
                &&& is_stable_sorting(natural::<T>(), ascending, old(sequence)@, sorted@)
            },
            Err(_) => false,
        },
{
    proof {
        priority::lemma_natural_weak_order::<T>();
        reveal(vstd::laws_cmp::obeys_cmp_ord);
    }
    let by = |a: &T, b: &T| -> (o: Ordering)
        ensures
            o == a.cmp_spec(b),
        { a.cmp(b) };
    assert(decides(by, natural::<T>()));
    timsort_by(sequence, ascending, run, by)
}

/// Sorts a slice by timsort, by the order that `compare` tells.
///
/// A slice that is no longer than `run` is sorted by insertion sort. A
/// longer one is cut into runs of that width, the last of which may be
/// shorter; each run is sorted by insertion sort, and the runs are merged,
/// pair by pair, into runs of twice the width until one run is left.
/// Elements of equal rank keep their order.
///
/// A slice of two or more elements cannot be cut into runs of no width:
/// `run` must then not be zero.
pub fn timsort_by<T, F>(
    sequence: &mut [T],
    ascending: bool,
    run: usize,
    compare: F,
) -> (result: AgcResult<&mut [T]>) where F: Fn(&T, &T) -> Ordering + Copy
    requires
        callable(compare),
        old(sequence)@.len() > 1 ==> run > 0,
    ensures
        match result {
            Ok(sorted) => {
                &&& final(sequence)@ == final(sorted)@
                &&& sorts_stably_by(compare, ascending, old(sequence)@, sorted@)
            },
            Err(_) => false,
        },
{
    let length = sequence.len();
    if already_sorted(length) {
        return Ok(sequence);
    }
    // A slice that is no longer than a run is sorted by insertion sort
    // directly.
    if length <= run {
        return insertionsort_by(sequence, ascending, compare);
    }
    // Where the run starts that is sorted next.
    let mut offset: usize = 0;
    while offset < length
        invariant
            callable(compare),
            length == sequence@.len(),
            length == old(sequence)@.len(),
            0 < run < length,
            offset <= length,
            offset == length || aligned(pos(offset), pos(run)),
            sequence@.to_multiset() == old(sequence)@.to_multiset(),
            forall|rel: spec_fn(T, T) -> Ordering|
                #[trigger] decides(compare, rel) && weak_order(rel)
                ==> runs_ordered_upto(rel, ascending, sequence@, pos(run), pos(offset))
                && respects(rel, ascending, old(sequence)@, sequence@),
        decreases length - offset,
    {
        let end = if run < length - offset {
            offset + run
        } else {
            length
        };
        let ghost s = sequence@;
        let (_, rest) = sequence.split_at_mut(offset);
        let (part, _) = rest.split_at_mut(end - offset);
        insertionsort_by(part, ascending, compare)?;
        proof {
            let t = sequence@;
            let tail = s.subrange(pos(offset), pos(length));
            assert(tail.subrange(0, end - offset) =~= s.subrange(pos(offset), pos(end)));
            assert(tail.subrange(end - offset, length - offset)
                =~= s.subrange(pos(end), pos(length)));
            lemma_part_rearranged(s, pos(offset), pos(end), part@);
            lemma_rearranged_multiset(s, t, pos(offset), pos(end));
            assert forall|rel: spec_fn(T, T) -> Ordering|
                #[trigger] decides(compare, rel) && weak_order(rel)
                implies runs_ordered_upto(rel, ascending, t, pos(run), pos(end))
                && respects(rel, ascending, old(sequence)@, t) by {
                lemma_run_sorted(rel, ascending, s, t, pos(run), pos(offset), pos(end));
                lemma_respects_part(rel, ascending, old(sequence)@, s, t, pos(offset), pos(end));
            }
            if end < length {
                vstd::arithmetic::div_mod::lemma_mod_add_multiples_vanish(pos(offset), pos(run));
            }
        }
        offset = end;
    }
    merge_runs(sequence, run, ascending, compare)?;
    Ok(sequence)
}

} // verus!
