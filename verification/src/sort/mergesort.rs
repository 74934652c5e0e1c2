//! Merge sort, and the merge that it is built on.

use crate::error::{
    AgcError, AgcErrorKind, AgcResult, describe_number, describe_numbers, names_number,
    names_numbers,
};
use crate::sort::{
    already_sorted, is_stable_sorting, keeps_equals_in_order, lemma_ordered_pair, ordered, respects,
    same_rank, sorts_stably_by,
};
use crate::utils::priority;
use crate::utils::priority::{callable, decides, natural, precedes, weak_order};
use crate::utils::slice::{
    lemma_moved_index, lemma_moved_rearranged, lemma_rearranged_multiset, moved, pos, rearranged,
    span, transfer_element,
};
use std::cmp::Ordering;
use vstd::prelude::*;
use vstd::std_specs::cmp::OrdSpec;

verus! {

/// Two sequences merged into one: the result takes, again and again, the
/// first element of `a` if it may stand before the first element of `b`, and
/// the first element of `b` otherwise. Where the two are of equal rank the
/// element of `a` comes first.
pub open spec fn merging<T>(
    rel: spec_fn(T, T) -> Ordering,
    ascending: bool,
    a: Seq<T>,
    b: Seq<T>,
) -> Seq<T>
    decreases a.len() + b.len(),
{
    if a.len() == 0 {
        b
    } else if b.len() == 0 {
        a
    } else if precedes(rel, ascending, a[0], b[0]) {
        seq![a[0]] + merging(rel, ascending, a.drop_first(), b)
    } else {
        seq![b[0]] + merging(rel, ascending, a, b.drop_first())
    }
}

/// A merge holds the elements of both sequences, each as often as the two
/// together.
pub proof fn lemma_merging_multiset<T>(
    rel: spec_fn(T, T) -> Ordering,
    ascending: bool,
    a: Seq<T>,
    b: Seq<T>,
)
    ensures
        merging(rel, ascending, a, b).len() == a.len() + b.len(),
        merging(rel, ascending, a, b).to_multiset() == (a + b).to_multiset(),
    decreases a.len() + b.len(),
{
    if a.len() == 0 {
        assert(a + b =~= b);
    } else if b.len() == 0 {
        assert(a + b =~= a);
    } else if precedes(rel, ascending, a[0], b[0]) {
        let rest = merging(rel, ascending, a.drop_first(), b);
        lemma_merging_multiset(rel, ascending, a.drop_first(), b);
        vstd::seq_lib::lemma_multiset_commutative(seq![a[0]], rest);
        vstd::seq_lib::lemma_multiset_commutative(seq![a[0]], a.drop_first() + b);
        assert(a + b =~= seq![a[0]] + (a.drop_first() + b));
    } else {
        let rest = merging(rel, ascending, a, b.drop_first());
        lemma_merging_multiset(rel, ascending, a, b.drop_first());
        vstd::seq_lib::lemma_multiset_commutative(seq![b[0]], rest);
        vstd::seq_lib::lemma_multiset_commutative(seq![b[0]], a + b.drop_first());
        vstd::seq_lib::lemma_multiset_commutative(a, b.drop_first());
        vstd::seq_lib::lemma_multiset_commutative(a, b);
        vstd::seq_lib::lemma_multiset_commutative(seq![b[0]], b.drop_first());
        assert(b =~= seq![b[0]] + b.drop_first());
        assert((seq![b[0]] + (a + b.drop_first())).to_multiset() =~= (a + b).to_multiset());
    }
}

/// The first element of a merge is the first element of one of the two
/// sequences.
pub proof fn lemma_merging_first<T>(
    rel: spec_fn(T, T) -> Ordering,
    ascending: bool,
    a: Seq<T>,
    b: Seq<T>,
)
    requires
        a.len() + b.len() > 0,
    ensures
        merging(rel, ascending, a, b).len() > 0,
        (a.len() > 0 && merging(rel, ascending, a, b)[0] == a[0])
            || (b.len() > 0 && merging(rel, ascending, a, b)[0] == b[0]),
{
    lemma_merging_multiset(rel, ascending, a, b);
}

/// The merge of two ordered sequences is ordered.
pub proof fn lemma_merging_ordered<T>(
    rel: spec_fn(T, T) -> Ordering,
    ascending: bool,
    a: Seq<T>,
    b: Seq<T>,
)
    requires
        weak_order(rel),
        ordered(rel, ascending, a),
        ordered(rel, ascending, b),
    ensures
        ordered(rel, ascending, merging(rel, ascending, a, b)),
    decreases a.len() + b.len(),
{
    if a.len() == 0 || b.len() == 0 {
    } else if precedes(rel, ascending, a[0], b[0]) {
        let tail = a.drop_first();
        let rest = merging(rel, ascending, tail, b);
        assert(ordered(rel, ascending, tail)) by {
            assert forall|i: int| 0 <= i && i + 1 < tail.len()
                implies precedes(rel, ascending, #[trigger] tail[i], tail[i + 1]) by {
                assert(precedes(rel, ascending, a[i + 1], a[i + 2]));
            }
        }
        lemma_merging_ordered(rel, ascending, tail, b);
        lemma_merging_first(rel, ascending, tail, b);
        if tail.len() > 0 {
            assert(precedes(rel, ascending, a[0], a[1]));
        }
        let whole = seq![a[0]] + rest;
        assert forall|i: int| 0 <= i && i + 1 < whole.len()
            implies precedes(rel, ascending, #[trigger] whole[i], whole[i + 1]) by {
            if i > 0 {
                assert(precedes(rel, ascending, rest[i - 1], rest[i]));
            }
        }
    } else {
        let tail = b.drop_first();
        let rest = merging(rel, ascending, a, tail);
        assert(ordered(rel, ascending, tail)) by {
            assert forall|i: int| 0 <= i && i + 1 < tail.len()
                implies precedes(rel, ascending, #[trigger] tail[i], tail[i + 1]) by {
                assert(precedes(rel, ascending, b[i + 1], b[i + 2]));
            }
        }
        lemma_merging_ordered(rel, ascending, a, tail);
        lemma_merging_first(rel, ascending, a, tail);
        priority::lemma_precedes_total(rel, ascending, a[0], b[0]);
        if tail.len() > 0 {
            assert(precedes(rel, ascending, b[0], b[1]));
        }
        let whole = seq![b[0]] + rest;
        assert forall|i: int| 0 <= i && i + 1 < whole.len()
            implies precedes(rel, ascending, #[trigger] whole[i], whole[i + 1]) by {
            if i > 0 {
                assert(precedes(rel, ascending, rest[i - 1], rest[i]));
            }
        }
    }
}

/// The merge of two ordered sequences holds the elements of each rank in the
/// order in which the two hold them when joined.
pub proof fn lemma_merging_keeps_equals<T>(
    rel: spec_fn(T, T) -> Ordering,
    ascending: bool,
    a: Seq<T>,
    b: Seq<T>,
)
    requires
        weak_order(rel),
        ordered(rel, ascending, a),
        ordered(rel, ascending, b),
    ensures
        keeps_equals_in_order(rel, a + b, merging(rel, ascending, a, b)),
    decreases a.len() + b.len(),
{
    if a.len() == 0 {
        assert(a + b =~= b);
    } else if b.len() == 0 {
        assert(a + b =~= a);
    } else if precedes(rel, ascending, a[0], b[0]) {
        let tail = a.drop_first();
        crate::sort::lemma_ordered_part(rel, ascending, a, 1, span(a));
        assert(tail =~= a.subrange(1, span(a)));
        lemma_merging_keeps_equals(rel, ascending, tail, b);
        assert(a + b =~= seq![a[0]] + (tail + b));
        assert forall|rank: T| #[trigger]
            merging(rel, ascending, a, b).filter(same_rank(rel, rank))
                == (a + b).filter(same_rank(rel, rank)) by {
            let test = same_rank(rel, rank);
            Seq::filter_distributes_over_add(seq![a[0]], merging(rel, ascending, tail, b), test);
            Seq::filter_distributes_over_add(seq![a[0]], tail + b, test);
            assert(merging(rel, ascending, tail, b).filter(test) == (tail + b).filter(test));
        }
    } else {
        let tail = b.drop_first();
        crate::sort::lemma_ordered_part(rel, ascending, b, 1, span(b));
        assert(tail =~= b.subrange(1, span(b)));
        lemma_merging_keeps_equals(rel, ascending, a, tail);
        assert(a + b =~= a + (seq![b[0]] + tail));
        assert forall|rank: T| #[trigger]
            merging(rel, ascending, a, b).filter(same_rank(rel, rank))
                == (a + b).filter(same_rank(rel, rank)) by {
            let test = same_rank(rel, rank);
            Seq::filter_distributes_over_add(seq![b[0]], merging(rel, ascending, a, tail), test);
            Seq::filter_distributes_over_add(a, tail, test);
            Seq::filter_distributes_over_add(a, seq![b[0]] + tail, test);
            Seq::filter_distributes_over_add(seq![b[0]], tail, test);
            assert(merging(rel, ascending, a, tail).filter(test) == (a + tail).filter(test));
            crate::sort::lemma_filter_one(b[0], test);
            if test(b[0]) {
                assert forall|i: int| 0 <= i < a.len() implies !test(#[trigger] a[i]) by {
                    if test(a[i]) {
                        crate::sort::lemma_same_rank_in_order(rel, ascending, a[i], b[0], rank);
                        if i > 0 {
                            lemma_ordered_pair(rel, ascending, a, 0, i);
                            priority::lemma_precedes_transitive(rel, ascending, a[0], a[i], b[0]);
                        }
                    }
                }
                crate::sort::lemma_filter_none(a, test);
            }
            assert(merging(rel, ascending, a, b).filter(test) =~= (a + b).filter(test));
        }
    }
}

/// Two sequences that are ordered when joined are merged by joining them.
pub proof fn lemma_merging_joined<T>(
    rel: spec_fn(T, T) -> Ordering,
    ascending: bool,
    a: Seq<T>,
    b: Seq<T>,
)
    requires
        weak_order(rel),
        ordered(rel, ascending, a + b),
    ensures
        merging(rel, ascending, a, b) == a + b,
    decreases a.len() + b.len(),
{
    if a.len() == 0 {
        assert(a + b =~= b);
    } else if b.len() == 0 {
        assert(a + b =~= a);
    } else {
        let joined = a + b;
        lemma_ordered_pair(rel, ascending, joined, 0, span(a));
        assert(joined[0] == a[0]);
        assert(joined[span(a)] == b[0]);
        let tail = a.drop_first();
        assert(tail + b =~= joined.drop_first());
        assert(ordered(rel, ascending, tail + b)) by {
            assert forall|i: int| 0 <= i && i + 1 < (tail + b).len()
                implies precedes(rel, ascending, #[trigger] (tail + b)[i], (tail + b)[i + 1]) by {
                assert(precedes(rel, ascending, joined[i + 1], joined[i + 2]));
            }
        }
        lemma_merging_joined(rel, ascending, tail, b);
        assert(a + b =~= seq![a[0]] + (tail + b));
    }
}


/// What is deposited so far, followed by the merge of what is left of the two
/// runs: the runs are `from..from + left_size` and the places after it up to
/// `end`, the deposit lies before them and starts at `left`.
pub open spec fn merge_in_progress<T>(
    rel: spec_fn(T, T) -> Ordering,
    ascending: bool,
    s: Seq<T>,
    left: int,
    from: int,
    left_size: int,
    end: int,
) -> Seq<T> {
    s.subrange(left, from) + merging(
        rel,
        ascending,
        s.subrange(from, from + left_size),
        s.subrange(from + left_size, end),
    )
}

/// Passing over the first element of the left run, which may stand before
/// the first element of the right run, is a step of the merge.
pub proof fn lemma_merge_keeps<T>(
    rel: spec_fn(T, T) -> Ordering,
    ascending: bool,
    s: Seq<T>,
    left: int,
    from: int,
    left_size: int,
    end: int,
)
    requires
        0 <= left <= from,
        0 < left_size,
        from + left_size < end <= s.len(),
        precedes(rel, ascending, s[from], s[from + left_size]),
    ensures
        merge_in_progress(rel, ascending, s, left, from + 1, left_size - 1, end)
            == merge_in_progress(rel, ascending, s, left, from, left_size, end),
{
    let a = s.subrange(from, from + left_size);
    let b = s.subrange(from + left_size, end);
    assert(a.drop_first() =~= s.subrange(from + 1, from + left_size));
    assert(s.subrange(left, from + 1) =~= s.subrange(left, from) + seq![a[0]]);
    assert(merge_in_progress(rel, ascending, s, left, from + 1, left_size - 1, end)
        =~= merge_in_progress(rel, ascending, s, left, from, left_size, end));
}

/// Moving the first element of the right run, which must stand before the
/// first element of the left run, in front of the left run is a step of the
/// merge.
pub proof fn lemma_merge_moves<T>(
    rel: spec_fn(T, T) -> Ordering,
    ascending: bool,
    s: Seq<T>,
    left: int,
    from: int,
    left_size: int,
    end: int,
)
    requires
        0 <= left <= from,
        0 < left_size,
        from + left_size < end <= s.len(),
        !precedes(rel, ascending, s[from], s[from + left_size]),
    ensures
        merge_in_progress(
            rel,
            ascending,
            moved(s, from + left_size, from),
            left,
            from + 1,
            left_size,
            end,
        ) == merge_in_progress(rel, ascending, s, left, from, left_size, end),
{
    let t = moved(s, from + left_size, from);
    lemma_moved_index(s, from + left_size, from);
    let a = s.subrange(from, from + left_size);
    let b = s.subrange(from + left_size, end);
    assert(t.subrange(from + 1, from + 1 + left_size) =~= a);
    assert(t.subrange(from + 1 + left_size, end) =~= b.drop_first());
    assert(t.subrange(left, from + 1) =~= s.subrange(left, from) + seq![b[0]]);
    assert(merge_in_progress(rel, ascending, t, left, from + 1, left_size, end)
        =~= merge_in_progress(rel, ascending, s, left, from, left_size, end));
}

/// When one of the two runs is used up, the range holds the merge.
pub proof fn lemma_merge_ends<T>(
    rel: spec_fn(T, T) -> Ordering,
    ascending: bool,
    s: Seq<T>,
    left: int,
    from: int,
    left_size: int,
    end: int,
)
    requires
        0 <= left <= from,
        0 <= left_size,
        from + left_size <= end <= s.len(),
        left_size == 0 || from + left_size == end,
    ensures
        merge_in_progress(rel, ascending, s, left, from, left_size, end) == s.subrange(left, end),
{
    assert(merge_in_progress(rel, ascending, s, left, from, left_size, end) =~= s.subrange(
        left,
        end,
    ));
}

/// `after` is `before` with the neighbouring runs `left..=middle` and
/// `middle + 1..=right` merged in their place. Where the order is a weak
/// order and both runs were ordered, the merge is one ordered run with the
/// elements of equal rank in the order they had; where the two runs together
/// were ordered already, nothing has changed.
pub open spec fn is_merge<T>(
    rel: spec_fn(T, T) -> Ordering,
    ascending: bool,
    before: Seq<T>,
    after: Seq<T>,
    left: int,
    middle: int,
    right: int,
) -> bool {
    let first = before.subrange(left, middle + 1);
    let second = before.subrange(middle + 1, right + 1);
    &&& after.subrange(left, right + 1) == merging(rel, ascending, first, second)
    &&& weak_order(rel) && ordered(rel, ascending, first) && ordered(rel, ascending, second)
        ==> ordered(rel, ascending, after.subrange(left, right + 1))
        && keeps_equals_in_order(rel, before, after)
    &&& weak_order(rel) && ordered(rel, ascending, before.subrange(left, right + 1))
        ==> after == before
}

/// The merge of two neighbouring runs, standing in their place, is a merge
/// of the sequence.
pub proof fn lemma_merge_result<T>(
    rel: spec_fn(T, T) -> Ordering,
    ascending: bool,
    before: Seq<T>,
    after: Seq<T>,
    left: int,
    middle: int,
    right: int,
)
    requires
        0 <= left <= middle <= right < before.len(),
        rearranged(before, after, left, right + 1),
        after.subrange(left, right + 1) == merging(
            rel,
            ascending,
            before.subrange(left, middle + 1),
            before.subrange(middle + 1, right + 1),
        ),
    ensures
        is_merge(rel, ascending, before, after, left, middle, right),
{
    let a = before.subrange(left, middle + 1);
    let b = before.subrange(middle + 1, right + 1);
    assert(a + b =~= before.subrange(left, right + 1));
    if weak_order(rel) && ordered(rel, ascending, a) && ordered(rel, ascending, b) {
        lemma_merging_ordered(rel, ascending, a, b);
        lemma_merging_keeps_equals(rel, ascending, a, b);
        crate::sort::lemma_part_keeps_equals(rel, before, after, left, right + 1);
    }
    if weak_order(rel) && ordered(rel, ascending, before.subrange(left, right + 1)) {
        lemma_merging_joined(rel, ascending, a, b);
        assert forall|i: int| 0 <= i < before.len() implies after[i] == before[i] by {
            if left <= i <= right {
                assert(after.subrange(left, right + 1)[i - left] == after[i]);
                assert(before.subrange(left, right + 1)[i - left] == before[i]);
            }
        }
        assert(after =~= before);
    }
}

/// The error with which `merge` refuses the bounds of two runs in a slice of
/// the given length: `WrongOrder` where the bounds do not come in their
/// order, else `OutOfBounds` where one of them is not a place of the slice,
/// each with a description that names the first bound that is at fault.
pub open spec fn refuses_runs(
    error: AgcError,
    left: usize,
    middle: usize,
    right: usize,
    length: nat,
) -> bool {
    let description = error@.1;
    if left > middle {
        &&& error.kind() == AgcErrorKind::WrongOrder
        &&& names_numbers(
            description, "Left ("@, left, ") cannot be greater than middle ("@, middle, ")"@,
        )
    } else if middle > right {
        &&& error.kind() == AgcErrorKind::WrongOrder
        &&& names_numbers(
            description, "Right ("@, right, ") cannot be smaller than middle ("@, middle, ")"@,
        )
    } else if left >= length {
        &&& error.kind() == AgcErrorKind::OutOfBounds
        &&& names_number(description, "Left ("@, left, ") is out of bounds."@)
    } else if middle >= length {
        &&& error.kind() == AgcErrorKind::OutOfBounds
        &&& names_number(description, "Middle ("@, middle, ") is out of bounds."@)
    } else {
        &&& right >= length
        &&& error.kind() == AgcErrorKind::OutOfBounds
        &&& names_number(description, "Right ("@, right, ") is out of bounds."@)
    }
}

/// Merges two neighbouring runs of a slice, in place, into one. The first run
/// is `left..=middle`, the second `middle + 1..=right`; if `middle == right`
/// the second run is empty. The three bounds must come in this order and lie
/// within the slice.
///
/// The elements of the two runs end in `left..=right` in the order of their
/// merge. Where both runs were ordered, that is one ordered run; an element
/// of the first run stays before the elements of the second that are of
/// equal rank. The rest of the slice is left alone.
///
/// The merge needs no other storage: an element of the second run that is
/// to come next moves up to where the first run starts, and that run shifts
/// by one place.
///
/// # Errors
///
/// `WrongOrder` if `left > middle` or `middle > right`, else `OutOfBounds` if
/// one of the bounds is not a place of the slice. The slice is then unchanged.
pub fn merge<'t, T, F>(
    slice: &'t mut [T],
    left: usize,
    middle: usize,
    right: usize,
    ascending: bool,
    compare: F,
) -> (result: AgcResult<&'t mut [T]>) where F: Fn(&T, &T) -> Ordering + Copy
    requires
        callable(compare),
    ensures
        match result {
            Ok(merged) => {
                &&& left <= middle <= right < old(slice)@.len()
                &&& final(slice)@ == final(merged)@
                &&& rearranged(old(slice)@, merged@, pos(left), right + 1)
                &&& merged@.to_multiset() == old(slice)@.to_multiset()
                &&& forall|rel: spec_fn(T, T) -> Ordering| #[trigger] decides(compare, rel)
                    ==> is_merge(
                        rel, ascending, old(slice)@, merged@, pos(left), pos(middle), pos(right),
                    )
            },
            Err(error) => {
                &&& final(slice)@ == old(slice)@
                &&& refuses_runs(error, left, middle, right, old(slice)@.len())
            },
        },
{
    if left > middle {
        let text = describe_numbers(
            "Left (", left, ") cannot be greater than middle (", middle, ")",
        );
        return Err(AgcError::new(AgcErrorKind::WrongOrder, text.as_str()));
    } else if middle > right {
        let text = describe_numbers(
            "Right (", right, ") cannot be smaller than middle (", middle, ")",
        );
        return Err(AgcError::new(AgcErrorKind::WrongOrder, text.as_str()));
    }
    let length = slice.len();
    if left >= length {
        let text = describe_number("Left (", left, ") is out of bounds.");
        return Err(AgcError::new(AgcErrorKind::OutOfBounds, text.as_str()));
    } else if middle >= length {
        let text = describe_number("Middle (", middle, ") is out of bounds.");
        return Err(AgcError::new(AgcErrorKind::OutOfBounds, text.as_str()));
    } else if right >= length {
        let text = describe_number("Right (", right, ") is out of bounds.");
        return Err(AgcError::new(AgcErrorKind::OutOfBounds, text.as_str()));
    }
    // [deposit..., left run..., right run...]
    let mut left_size = middle - left + 1;
    let mut right_size = right - middle;
    let mut deposit_size: usize = 0;
    let ghost first = old(slice)@.subrange(pos(left), middle + 1);
    let ghost second = old(slice)@.subrange(middle + 1, right + 1);
    proof {
        assert(slice@.subrange(pos(left), pos(left)) =~= Seq::<T>::empty());
        assert forall|rel: spec_fn(T, T) -> Ordering| #[trigger] decides(compare, rel)
            implies merge_in_progress(
                rel, ascending, slice@, pos(left), pos(left), pos(left_size), right + 1,
            )
            == merging(rel, ascending, first, second) by {
            assert(Seq::<T>::empty() + merging(rel, ascending, first, second)
                =~= merging(rel, ascending, first, second));
        }
    }
    while left_size > 0 && right_size > 0
        invariant
            callable(compare),
            left <= middle <= right < length,
            length == old(slice)@.len(),
            length == slice@.len(),
            left + deposit_size + left_size + right_size == right + 1,
            first == old(slice)@.subrange(pos(left), middle + 1),
            second == old(slice)@.subrange(middle + 1, right + 1),
            rearranged(old(slice)@, slice@, pos(left), right + 1),
            forall|rel: spec_fn(T, T) -> Ordering| #[trigger] decides(compare, rel)
                ==> merge_in_progress(
                    rel, ascending, slice@, pos(left), left + deposit_size, pos(left_size),
                    right + 1,
                )
                == merging(rel, ascending, first, second),
        decreases left_size + right_size,
    {
        let ghost s = slice@;
        let from = left + deposit_size;
        let order = compare(&slice[from], &slice[from + left_size]);
        let left_first = if ascending {
            priority::is_le(order)
        } else {
            priority::is_ge(order)
        };
        if left_first {
            proof {
                assert forall|rel: spec_fn(T, T) -> Ordering| #[trigger] decides(compare, rel)
                    implies merge_in_progress(
                        rel, ascending, s, pos(left), from + 1, left_size - 1, right + 1,
                    )
                    == merging(rel, ascending, first, second) by {
                    lemma_merge_keeps(
                        rel, ascending, s, pos(left), pos(from), pos(left_size), right + 1,
                    );
                }
            }
            left_size -= 1;
        } else {
            proof {
                let t = moved(s, from + left_size, pos(from));
                assert forall|rel: spec_fn(T, T) -> Ordering| #[trigger] decides(compare, rel)
                    implies merge_in_progress(
                        rel, ascending, t, pos(left), from + 1, pos(left_size), right + 1,
                    )
                    == merging(rel, ascending, first, second) by {
                    lemma_merge_moves(
                        rel, ascending, s, pos(left), pos(from), pos(left_size), right + 1,
                    );
                }
                lemma_moved_rearranged(s, pos(left), right + 1, from + left_size, pos(from));
            }
            transfer_element(slice, from + left_size, from)?;
            right_size -= 1;
        }
        deposit_size += 1;
    }
    proof {
        lemma_rearranged_multiset(old(slice)@, slice@, pos(left), right + 1);
        assert forall|rel: spec_fn(T, T) -> Ordering| #[trigger] decides(compare, rel)
            implies is_merge(
                rel, ascending, old(slice)@, slice@, pos(left), pos(middle), pos(right),
            ) by {
            lemma_merge_ends(
                rel, ascending, slice@, pos(left), left + deposit_size, pos(left_size), right + 1,
            );
            lemma_merge_result(
                rel, ascending, old(slice)@, slice@, pos(left), pos(middle), pos(right),
            );
        }
    }
    Ok(slice)
}

/// `place` is a multiple of `width`.
pub open spec fn aligned(place: int, width: int) -> bool {
    place % width == 0
}

/// Between two multiples of a width lies no third.
pub proof fn lemma_aligned_gap(place: int, width: int, step: int)
    requires
        0 <= place,
        aligned(place, width),
        0 < step < width,
    ensures
        !aligned(place + step, width),
{
    vstd::arithmetic::div_mod::lemma_fundamental_div_mod(place, width);
    vstd::arithmetic::div_mod::lemma_mod_multiples_vanish(place / width, step, width);
    vstd::arithmetic::div_mod::lemma_small_mod(step as nat, width as nat);
}

/// A multiple of twice a width is a multiple of the width, and so is what
/// lies one width further; two widths further lies the next multiple of
/// twice the width.
pub proof fn lemma_aligned_double(place: int, width: int)
    requires
        0 <= place,
        0 < width,
        aligned(place, 2 * width),
    ensures
        aligned(place, width),
        aligned(place + width, width),
        aligned(place + 2 * width, 2 * width),
{
    let double = 2 * width;
    vstd::arithmetic::div_mod::lemma_fundamental_div_mod(place, double);
    let q = place / double;
    assert(place == width * (2 * q)) by (nonlinear_arith)
        requires
            place == double * q,
            double == 2 * width,
    ;
    vstd::arithmetic::div_mod::lemma_mod_multiples_vanish(2 * q, 0, width);
    assert(place + width == width * (2 * q + 1)) by (nonlinear_arith)
        requires
            place == width * (2 * q),
    ;
    vstd::arithmetic::div_mod::lemma_mod_multiples_vanish(2 * q + 1, 0, width);
    assert(place + 2 * width == double * (q + 1)) by (nonlinear_arith)
        requires
            place == double * q,
            double == 2 * width,
    ;
    vstd::arithmetic::div_mod::lemma_mod_multiples_vanish(q + 1, 0, double);
    vstd::arithmetic::div_mod::lemma_small_mod(0, width as nat);
    vstd::arithmetic::div_mod::lemma_small_mod(0, double as nat);
}


/// The sequence is made of ordered runs of the given width (the last one may
/// be shorter): two neighbours are in order unless the second one starts a
/// run.
pub open spec fn runs_ordered<T>(
    rel: spec_fn(T, T) -> Ordering,
    ascending: bool,
    s: Seq<T>,
    width: int,
) -> bool {
    forall|i: int|
        0 <= i && i + 1 < s.len() && !aligned(i + 1, width)
            ==> precedes(rel, ascending, #[trigger] s[i], s[i + 1])
}

/// A pass that merges pairs of runs has come to `left`: up to there the runs
/// have twice the width.
pub open spec fn runs_merged_upto<T>(
    rel: spec_fn(T, T) -> Ordering,
    ascending: bool,
    s: Seq<T>,
    width: int,
    left: int,
) -> bool {
    forall|i: int|
        0 <= i && i + 1 < s.len() && !aligned(
            i + 1,
            if i + 1 <= left {
                2 * width
            } else {
                width
            },
        ) ==> precedes(rel, ascending, #[trigger] s[i], s[i + 1])
}

/// Runs that are as wide as the sequence is long make an ordered sequence.
pub proof fn lemma_runs_whole<T>(
    rel: spec_fn(T, T) -> Ordering,
    ascending: bool,
    s: Seq<T>,
    width: int,
)
    requires
        s.len() <= width,
        runs_ordered(rel, ascending, s, width),
    ensures
        ordered(rel, ascending, s),
{
    assert forall|i: int| 0 <= i && i + 1 < s.len()
        implies precedes(rel, ascending, #[trigger] s[i], s[i + 1]) by {
        lemma_aligned_gap(0, width, i + 1);
    }
}

/// The two runs that start at a multiple of twice the width are ordered.
pub proof fn lemma_runs_ready<T>(
    rel: spec_fn(T, T) -> Ordering,
    ascending: bool,
    s: Seq<T>,
    width: int,
    left: int,
    middle: int,
    right: int,
)
    requires
        0 < width,
        0 <= left <= middle <= right < s.len(),
        aligned(left, 2 * width),
        middle < left + width,
        right < left + 2 * width,
        middle == left + width - 1 || middle == right,
        runs_merged_upto(rel, ascending, s, width, left),
    ensures
        ordered(rel, ascending, s.subrange(left, middle + 1)),
        ordered(rel, ascending, s.subrange(middle + 1, right + 1)),
{
    lemma_aligned_double(left, width);
    let first = s.subrange(left, middle + 1);
    assert forall|i: int| 0 <= i && i + 1 < first.len()
        implies precedes(rel, ascending, #[trigger] first[i], first[i + 1]) by {
        lemma_aligned_gap(left, width, i + 1);
        assert(precedes(rel, ascending, s[left + i], s[left + i + 1]));
    }
    let second = s.subrange(middle + 1, right + 1);
    assert forall|i: int| 0 <= i && i + 1 < second.len()
        implies precedes(rel, ascending, #[trigger] second[i], second[i + 1]) by {
        lemma_aligned_gap(left + width, width, i + 1);
        assert(precedes(rel, ascending, s[middle + 1 + i], s[middle + 1 + i + 1]));
    }
}

/// Once the two runs are merged, the pass has come to the place after them.
pub proof fn lemma_runs_merged<T>(
    rel: spec_fn(T, T) -> Ordering,
    ascending: bool,
    s: Seq<T>,
    t: Seq<T>,
    width: int,
    left: int,
    right: int,
)
    requires
        0 < width,
        0 <= left <= right < s.len(),
        aligned(left, 2 * width),
        right == left + 2 * width - 1 || (right < left + 2 * width && right == s.len() - 1),
        runs_merged_upto(rel, ascending, s, width, left),
        rearranged(s, t, left, right + 1),
        ordered(rel, ascending, t.subrange(left, right + 1)),
    ensures
        runs_merged_upto(rel, ascending, t, width, right + 1),
        right + 1 == s.len() || aligned(right + 1, 2 * width),
{
    lemma_aligned_double(left, width);
    let run = t.subrange(left, right + 1);
    assert forall|i: int|
        0 <= i && i + 1 < t.len() && !aligned(
            i + 1,
            if i + 1 <= right + 1 {
                2 * width
            } else {
                width
            },
        ) implies precedes(rel, ascending, #[trigger] t[i], t[i + 1]) by {
        if i + 1 < left {
            assert(precedes(rel, ascending, s[i], s[i + 1]));
        } else if i + 1 == left {
        } else if i + 1 <= right {
            assert(precedes(rel, ascending, run[i - left], run[i - left + 1]));
        } else if i + 1 == right + 1 {
        } else {
            assert(precedes(rel, ascending, s[i], s[i + 1]));
        }
    }
}

/// A merge of two ordered runs respects the order that the sequence had.
pub proof fn lemma_merge_respects<T>(
    rel: spec_fn(T, T) -> Ordering,
    ascending: bool,
    before: Seq<T>,
    s: Seq<T>,
    t: Seq<T>,
    left: int,
    middle: int,
    right: int,
)
    requires
        weak_order(rel),
        0 <= left <= middle <= right < s.len(),
        respects(rel, ascending, before, s),
        is_merge(rel, ascending, s, t, left, middle, right),
        ordered(rel, ascending, s.subrange(left, middle + 1)),
        ordered(rel, ascending, s.subrange(middle + 1, right + 1)),
    ensures
        respects(rel, ascending, before, t),
        ordered(rel, ascending, t.subrange(left, right + 1)),
{
    if ordered(rel, ascending, before) {
        crate::sort::lemma_ordered_part(rel, ascending, s, left, right + 1);
    }
}

/// Merges the runs of a slice, pair by pair and in place, into runs of twice
/// the width, until one run is left. The slice is taken to be made of runs
/// of the width `run`, the last of which may be shorter.
///
/// The slice keeps its elements. If its runs were ordered, it is ordered
/// afterwards, with the elements of equal rank in the order they had, and if
/// it was ordered as a whole, it is left as it was.
pub fn merge_runs<T, F>(
    sequence: &mut [T],
    run: usize,
    ascending: bool,
    compare: F,
) -> (result: AgcResult<()>) where F: Fn(&T, &T) -> Ordering + Copy
    requires
        callable(compare),
        run > 0,
    ensures
        result is Ok,
        final(sequence)@.len() == old(sequence)@.len(),
        final(sequence)@.to_multiset() == old(sequence)@.to_multiset(),
        forall|rel: spec_fn(T, T) -> Ordering| #[trigger] decides(compare, rel) && weak_order(rel)
            && runs_ordered(rel, ascending, old(sequence)@, pos(run))
            ==> ordered(rel, ascending, final(sequence)@)
            && respects(rel, ascending, old(sequence)@, final(sequence)@),
{
    let length = sequence.len();
    // The width of the runs.
    let mut size = run;
    while size < length
        invariant
            callable(compare),
            length == sequence@.len(),
            length == old(sequence)@.len(),
            0 < size,
            sequence@.to_multiset() == old(sequence)@.to_multiset(),
            forall|rel: spec_fn(T, T) -> Ordering|
                #[trigger] decides(compare, rel) && weak_order(rel)
                && runs_ordered(rel, ascending, old(sequence)@, pos(run))
                ==> runs_ordered(rel, ascending, sequence@, pos(size))
                && respects(rel, ascending, old(sequence)@, sequence@),
        decreases length - size,
    {
        // Where the first of the two runs that are merged next starts.
        let mut left: usize = 0;
        while left < length
            invariant
                callable(compare),
                length == sequence@.len(),
                0 < size < length,
                left <= length,
                left == length || aligned(pos(left), 2 * size),
                sequence@.to_multiset() == old(sequence)@.to_multiset(),
                forall|rel: spec_fn(T, T) -> Ordering|
                    #[trigger] decides(compare, rel) && weak_order(rel)
                    && runs_ordered(rel, ascending, old(sequence)@, pos(run))
                    ==> runs_merged_upto(rel, ascending, sequence@, pos(size), pos(left))
                    && respects(rel, ascending, old(sequence)@, sequence@),
            decreases length - left,
        {
            // The last place of the first run and that of the second, both
            // held within the slice.
            let middle = if size - 1 < length - 1 - left {
                left + (size - 1)
            } else {
                length - 1
            };
            let right = if size < length - 1 - middle {
                middle + size
            } else {
                length - 1
            };
            let ghost s = sequence@;
            merge(sequence, left, middle, right, ascending, compare)?;
            proof {
                let t = sequence@;
                assert forall|rel: spec_fn(T, T) -> Ordering|
                    #[trigger] decides(compare, rel) && weak_order(rel)
                    && runs_ordered(rel, ascending, old(sequence)@, pos(run))
                    implies runs_merged_upto(rel, ascending, t, pos(size), right + 1)
                    && respects(rel, ascending, old(sequence)@, t) by {
                    lemma_runs_ready(
                        rel, ascending, s, pos(size), pos(left), pos(middle), pos(right),
                    );
                    lemma_merge_respects(
                        rel, ascending, old(sequence)@, s, t, pos(left), pos(middle), pos(right),
                    );
                    lemma_runs_merged(rel, ascending, s, t, pos(size), pos(left), pos(right));
                }
                if right + 1 < length {
                    lemma_aligned_double(pos(left), pos(size));
                }
            }
            left = right + 1;
        }
        proof {
            assert forall|rel: spec_fn(T, T) -> Ordering|
                #[trigger] decides(compare, rel) && weak_order(rel)
                && runs_ordered(rel, ascending, old(sequence)@, pos(run))
                implies runs_ordered(rel, ascending, sequence@, 2 * size)
                && (size >= length - size
                ==> runs_ordered(rel, ascending, sequence@, pos(length))) by {
                if size >= length - size {
                    lemma_runs_whole(rel, ascending, sequence@, 2 * size);
                }
            }
        }
        // Twice the width, or the length of the slice where that is less.
        size = if size < length - size {
            size + size
        } else {
            length
        };
    }
    proof {
        assert forall|rel: spec_fn(T, T) -> Ordering|
            #[trigger] decides(compare, rel) && weak_order(rel)
            && runs_ordered(rel, ascending, old(sequence)@, pos(run))
            implies ordered(rel, ascending, sequence@) by {
            lemma_runs_whole(rel, ascending, sequence@, pos(size));
        }
    }
    Ok(())
}

/// Sorts a slice by merge sort, by the natural order of its elements.
///
/// Runs of one element are merged, pair by pair, into runs of two, those
/// into runs of four, and so on until one run is left. Elements of equal rank
/// keep their order.
pub fn mergesort<T: Ord>(sequence: &mut [T], ascending: bool) -> (result: AgcResult<&mut [T]>)
    requires
        vstd::laws_cmp::obeys_cmp::<T>(),
    ensures
        match result {
            Ok(sorted) => {
                &&& final(sequence)@ == final(sorted)@
                &&& is_stable_sorting(natural::<T>(), ascending, old(sequence)@, sorted@)
            },
            Err(_) => false,
        },
{
    proof {
        priority::lemma_natural_weak_order::<T>();
        reveal(vstd::laws_cmp::obeys_cmp_ord);
    }
    let by = |a: &T, b: &T| -> (o: Ordering)
        ensures
            o == a.cmp_spec(b),
        { a.cmp(b) };
    assert(decides(by, natural::<T>()));
    mergesort_by(sequence, ascending, by)
}

/// Sorts a slice by merge sort, by the order that `compare` tells.
///
/// Runs of one element are merged, pair by pair, into runs of two, those
/// into runs of four, and so on until one run is left. Elements of equal rank
/// keep their order.
pub fn mergesort_by<T, F>(
    sequence: &mut [T],
    ascending: bool,
    compare: F,
) -> (result: AgcResult<&mut [T]>) where F: Fn(&T, &T) -> Ordering + Copy
    requires
        callable(compare),
    ensures
        match result {
            Ok(sorted) => {
                &&& final(sequence)@ == final(sorted)@
                &&& sorts_stably_by(compare, ascending, old(sequence)@, sorted@)
            },
            Err(_) => false,
        },
{
    let length = sequence.len();
    if already_sorted(length) {
        return Ok(sequence);
    }
    assert(forall|rel: spec_fn(T, T) -> Ordering| runs_ordered(rel, ascending, sequence@, 1));
    merge_runs(sequence, 1, ascending, compare)?;
    Ok(sequence)
}

/// Sorts a slice by merge sort, recursively, by the natural order of its
/// elements.
///
/// The slice is split in two halves, each half is sorted in the same way, and
/// the two are merged. Elements of equal rank keep their order.
pub fn mergesort_recursively<T: Ord>(
    sequence: &mut [T],
    ascending: bool,
) -> (result: AgcResult<&mut [T]>)
    requires
        vstd::laws_cmp::obeys_cmp::<T>(),
    ensures
        match result {
            Ok(sorted) => {
                &&& final(sequence)@ == final(sorted)@
                &&& is_stable_sorting(natural::<T>(), ascending, old(sequence)@, sorted@)
            },
            Err(_) => false,
        },
{
    proof {
        priority::lemma_natural_weak_order::<T>();
        reveal(vstd::laws_cmp::obeys_cmp_ord);
    }
    let by = |a: &T, b: &T| -> (o: Ordering)
        ensures
            o == a.cmp_spec(b),
        { a.cmp(b) };
    assert(decides(by, natural::<T>()));
    mergesort_recursively_by(sequence, ascending, by)
}

/// Two parts of a sequence that were rearranged apart hold, when joined, the
/// elements of the sequence.
pub proof fn lemma_parts_multiset<T>(before: Seq<T>, middle: int, low: Seq<T>, high: Seq<T>)
    requires
        0 <= middle <= before.len(),
        low.to_multiset() == before.subrange(0, middle).to_multiset(),
        high.to_multiset() == before.subrange(middle, span(before)).to_multiset(),
    ensures
        (low + high).to_multiset() == before.to_multiset(),
        low.len() == middle,
        high.len() == before.len() - middle,
{
    let first = before.subrange(0, middle);
    let second = before.subrange(middle, span(before));
    assert(before =~= first + second);
    vstd::seq_lib::lemma_multiset_commutative(first, second);
    vstd::seq_lib::lemma_multiset_commutative(low, high);
    vstd::seq_lib::to_multiset_len(low);
    vstd::seq_lib::to_multiset_len(first);
    vstd::seq_lib::to_multiset_len(high);
    vstd::seq_lib::to_multiset_len(second);
}

/// Two halves of a sequence that were each put in an order that respects
/// the order they had, respect, when joined, the order that the sequence
/// had.
pub proof fn lemma_halves_respect<T>(
    rel: spec_fn(T, T) -> Ordering,
    ascending: bool,
    before: Seq<T>,
    middle: int,
    low: Seq<T>,
    high: Seq<T>,
)
    requires
        0 <= middle <= before.len(),
        respects(rel, ascending, before.subrange(0, middle), low),
        respects(rel, ascending, before.subrange(middle, span(before)), high),
    ensures
        respects(rel, ascending, before, low + high),
{
    let first = before.subrange(0, middle);
    let second = before.subrange(middle, span(before));
    assert(before =~= first + second);
    assert forall|rank: T| #[trigger]
        (low + high).filter(same_rank(rel, rank)) == before.filter(same_rank(rel, rank)) by {
        let test = same_rank(rel, rank);
        Seq::filter_distributes_over_add(low, high, test);
        Seq::filter_distributes_over_add(first, second, test);
        assert(low.filter(test) == first.filter(test));
        assert(high.filter(test) == second.filter(test));
    }
    if ordered(rel, ascending, before) {
        crate::sort::lemma_ordered_part(rel, ascending, before, 0, middle);
        crate::sort::lemma_ordered_part(rel, ascending, before, middle, span(before));
    }
}

/// Sorts a slice by merge sort, recursively, by the order that `compare`
/// tells.
///
/// The slice is split in two halves, each half is sorted in the same way, and
/// the two are merged. Elements of equal rank keep their order. The
/// recursion is as deep as the length of the slice can be halved.
pub fn mergesort_recursively_by<'t, T, F>(
    sequence: &'t mut [T],
    ascending: bool,
    compare: F,
) -> (result: AgcResult<&'t mut [T]>) where F: Fn(&T, &T) -> Ordering + Copy
    requires
        callable(compare),
    ensures
        match result {
            Ok(sorted) => {
                &&& final(sequence)@ == final(sorted)@
                &&& sorts_stably_by(compare, ascending, old(sequence)@, sorted@)
            },
            Err(_) => false,
        },
    decreases old(sequence)@.len(),
{
    let length = sequence.len();
    if already_sorted(length) {
        return Ok(sequence);
    }
    let middle = length / 2;
    let (low, high) = sequence.split_at_mut(middle);
    mergesort_recursively_by(low, ascending, compare)?;
    mergesort_recursively_by(high, ascending, compare)?;
    let ghost halves = sequence@;
    proof {
        lemma_parts_multiset(old(sequence)@, pos(middle), low@, high@);
        assert(halves.subrange(0, pos(middle)) =~= low@);
        assert(halves.subrange(pos(middle), pos(length)) =~= high@);
        assert forall|rel: spec_fn(T, T) -> Ordering|
            #[trigger] decides(compare, rel) && weak_order(rel)
            implies respects(rel, ascending, old(sequence)@, halves) by {
            lemma_halves_respect(rel, ascending, old(sequence)@, pos(middle), low@, high@);
        }
    }
    merge(sequence, 0, middle - 1, length - 1, ascending, compare)?;
    proof {
        let merged = sequence@;
        assert(merged.subrange(0, pos(length)) =~= merged);
        assert forall|rel: spec_fn(T, T) -> Ordering|
            #[trigger] decides(compare, rel) && weak_order(rel)
            implies is_stable_sorting(rel, ascending, old(sequence)@, merged) by {
            lemma_merge_respects(
                rel, ascending, old(sequence)@, halves, merged, 0, middle - 1, length - 1,
            );
        }
    }
    Ok(sequence)
}

} // verus!
