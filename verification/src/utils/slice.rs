//! Utility functions on slices.

use crate::error::{AgcError, AgcErrorKind, AgcResult};
use vstd::prelude::*;

verus! {

/// `<[T]>::swap` exchanges the elements at the two indices and leaves the rest
/// of the slice alone. It panics when an index is out of bounds, so both must
/// lie within the slice.
pub assume_specification<Item>[ <[Item]>::swap ](items: &mut [Item], a: usize, b: usize)
    requires
        a < old(items)@.len(),
        b < old(items)@.len(),
    ensures
        final(items)@ == swapped(old(items)@, a as int, b as int),
;

/// The place `i` of a slice as an integer.
#[verifier::inline]
pub open spec fn pos(i: usize) -> int {
    i as int
}

/// The length of a sequence as an integer.
#[verifier::inline]
pub open spec fn span<T>(s: Seq<T>) -> int {
    s.len() as int
}

/// The sequence with the elements at `i` and `j` exchanged.
pub open spec fn swapped<T>(s: Seq<T>, i: int, j: int) -> Seq<T> {
    s.update(i, s[j]).update(j, s[i])
}

/// The sequence with its first element sent to the back.
pub open spec fn first_to_back<T>(s: Seq<T>) -> Seq<T> {
    if s.len() > 0 {
        s.drop_first().push(s[0])
    } else {
        s
    }
}

/// The sequence with the element at `from` taken out and put back at `to`:
/// the elements between the two move by one place towards `from`.
pub open spec fn moved<T>(s: Seq<T>, from: int, to: int) -> Seq<T> {
    s.remove(from).insert(to, s[from])
}

/// Exchanging two elements keeps the elements that a sequence holds.
pub proof fn lemma_swapped_multiset<T>(s: Seq<T>, i: int, j: int)
    requires
        0 <= i < s.len(),
        0 <= j < s.len(),
    ensures
        swapped(s, i, j).to_multiset() == s.to_multiset(),
        swapped(s, i, j).len() == s.len(),
{
    broadcast use vstd::seq_lib::to_multiset_update;
    broadcast use vstd::multiset::group_multiset_axioms;
    let mid = s.update(i, s[j]);
    assert(mid.to_multiset() == s.to_multiset().insert(s[j]).remove(s[i]));
    assert(swapped(s, i, j).to_multiset() == mid.to_multiset().insert(s[i]).remove(mid[j]));
    assert(mid[j] == s[j]);
    s.to_multiset_ensures();
    assert(s.to_multiset().count(s[i]) > 0) by {
        assert(s.contains(s[i]));
    }
    assert(s.to_multiset().count(s[j]) > 0) by {
        assert(s.contains(s[j]));
    }
    assert(swapped(s, i, j).to_multiset() =~= s.to_multiset());
}

/// Moving an element keeps the elements that a sequence holds.
pub proof fn lemma_moved_multiset<T>(s: Seq<T>, from: int, to: int)
    requires
        0 <= from < s.len(),
        0 <= to < s.len(),
    ensures
        moved(s, from, to).to_multiset() == s.to_multiset(),
        moved(s, from, to).len() == s.len(),
{
    broadcast use vstd::seq_lib::to_multiset_remove;
    broadcast use vstd::seq_lib::to_multiset_insert;
    broadcast use vstd::multiset::group_multiset_axioms;
    s.to_multiset_ensures();
    assert(s.to_multiset().count(s[from]) > 0) by {
        assert(s.contains(s[from]));
    }
    assert(moved(s, from, to).to_multiset() =~= s.to_multiset());
}

/// What a move by the index tells of each element of the result.
pub proof fn lemma_moved_index<T>(s: Seq<T>, from: int, to: int)
    requires
        0 <= from < s.len(),
        0 <= to < s.len(),
    ensures
        moved(s, from, to).len() == s.len(),
        moved(s, from, to)[to] == s[from],
        forall|i: int|
            0 <= i < s.len() && (i < from && i < to || i > from && i > to)
                ==> #[trigger] moved(s, from, to)[i] == s[i],
        forall|i: int| from <= i < to ==> #[trigger] moved(s, from, to)[i] == s[i + 1],
        forall|i: int| to < i <= from ==> #[trigger] moved(s, from, to)[i] == s[i - 1],
{
}

/// Moving an element one place further is an exchange with its neighbour.
pub proof fn lemma_moved_step<T>(s: Seq<T>, from: int, place: int, next: int)
    requires
        0 <= from < s.len(),
        0 <= place < s.len(),
        0 <= next < s.len(),
        (from <= place && next == place + 1) || (place <= from && next == place - 1),
    ensures
        swapped(moved(s, from, place), place, next) == moved(s, from, next),
{
    lemma_moved_index(s, from, place);
    lemma_moved_index(s, from, next);
    lemma_moved_index(s, from, from);
    assert(swapped(moved(s, from, place), place, next) =~= moved(s, from, next));
}

/// An element that moves to where it is leaves the sequence as it was.
pub proof fn lemma_moved_nowhere<T>(s: Seq<T>, from: int)
    requires
        0 <= from < s.len(),
    ensures
        moved(s, from, from) == s,
{
    lemma_moved_index(s, from, from);
    assert(moved(s, from, from) =~= s);
}

/// Move an element in a slice to another part of the slice. The elements
/// between the two places shift by one towards where the element came
/// `from`, making space for it where it moves `to`. All other elements keep
/// their places.
///
/// Returns an error if `from` or `to` are out of bounds; the slice is then
/// unchanged.
pub fn transfer_element<T>(slice: &mut [T], from: usize, to: usize) -> (result: AgcResult<()>)
    ensures
        match result {
            Ok(_) => {
                &&& from < old(slice)@.len()
                &&& to < old(slice)@.len()
                &&& final(slice)@ == moved(old(slice)@, from as int, to as int)
            },
            Err(error) => {
                &&& from >= old(slice)@.len() || to >= old(slice)@.len()
                &&& error@ == (
                    AgcErrorKind::OutOfBounds,
                    "from and to must be smaller than the length of the slice."@,
                )
                &&& final(slice)@ == old(slice)@
            },
        },
{
    let length = slice.len();
    if from >= length || to >= length {
        return Err(
            AgcError::new(
                AgcErrorKind::OutOfBounds,
                "from and to must be smaller than the length of the slice.",
            ),
        );
    }
    let mut place: usize = from;
    proof {
        lemma_moved_nowhere(old(slice)@, from as int);
    }
    if from < to {
        while place < to
            invariant
                from <= place <= to < length,
                old(slice)@.len() == length,
                slice@.len() == length,
                slice@ == moved(old(slice)@, from as int, place as int),
            decreases to - place,
        {
            proof {
                lemma_moved_step(old(slice)@, from as int, place as int, place + 1);
            }
            slice.swap(place, place + 1);
            place += 1;
        }
    } else {
        while place > to
            invariant
                to <= place <= from < length,
                old(slice)@.len() == length,
                slice@.len() == length,
                slice@ == moved(old(slice)@, from as int, place as int),
            decreases place - to,
        {
            proof {
                lemma_moved_step(old(slice)@, from as int, place as int, place - 1);
            }
            slice.swap(place, place - 1);
            place -= 1;
        }
    }
    Ok(())
}


/// `after` is `before` with the elements of `lo..hi` put in another order:
/// every other place holds what it held, and the range holds the same
/// elements, each as often as before.
pub open spec fn rearranged<T>(before: Seq<T>, after: Seq<T>, lo: int, hi: int) -> bool {
    &&& after.len() == before.len()
    &&& forall|i: int| 0 <= i < lo || hi <= i < before.len() ==> #[trigger] after[i] == before[i]
    &&& after.subrange(lo, hi).to_multiset() == before.subrange(lo, hi).to_multiset()
}

/// A sequence is the pieces before, within and after a range of it, joined.
pub proof fn lemma_three_pieces<T>(s: Seq<T>, lo: int, hi: int)
    requires
        0 <= lo <= hi <= s.len(),
    ensures
        s == s.subrange(0, lo) + s.subrange(lo, hi) + s.subrange(hi, s.len() as int),
        s.to_multiset() == s.subrange(0, lo).to_multiset().add(
            s.subrange(lo, hi).to_multiset(),
        ).add(s.subrange(hi, s.len() as int).to_multiset()),
{
    let a = s.subrange(0, lo);
    let b = s.subrange(lo, hi);
    let c = s.subrange(hi, s.len() as int);
    assert(s =~= a + b + c);
    vstd::seq_lib::lemma_multiset_commutative(a + b, c);
    vstd::seq_lib::lemma_multiset_commutative(a, b);
}

/// A sequence whose range was rearranged holds the elements it held.
pub proof fn lemma_rearranged_multiset<T>(before: Seq<T>, after: Seq<T>, lo: int, hi: int)
    requires
        0 <= lo <= hi <= before.len(),
        rearranged(before, after, lo, hi),
    ensures
        after.to_multiset() == before.to_multiset(),
{
    lemma_three_pieces(before, lo, hi);
    lemma_three_pieces(after, lo, hi);
    assert(after.subrange(0, lo) =~= before.subrange(0, lo));
    assert(after.subrange(hi, after.len() as int) =~= before.subrange(hi, before.len() as int));
}

/// An element that is found in a range after it was rearranged was in the
/// range before.
pub proof fn lemma_rearranged_origin<T>(before: Seq<T>, after: Seq<T>, lo: int, hi: int, i: int)
    requires
        0 <= lo <= hi <= before.len(),
        rearranged(before, after, lo, hi),
        lo <= i < hi,
    ensures
        exists|j: int| lo <= j < hi && before[j] == after[i],
{
    let a = after.subrange(lo, hi);
    let b = before.subrange(lo, hi);
    a.to_multiset_ensures();
    b.to_multiset_ensures();
    assert(a.len() == hi - lo);
    assert(a[i - lo] == after[i]);
    assert(a.contains(after[i]));
    assert(a.to_multiset().count(after[i]) > 0);
    assert(b.to_multiset().count(after[i]) > 0);
    assert(b.contains(after[i]));
    let k = choose|k: int| 0 <= k < b.len() && b[k] == after[i];
    assert(before[lo + k] == after[i]);
}


/// Moving an element within a range rearranges that range.
pub proof fn lemma_moved_rearranged<T>(s: Seq<T>, lo: int, hi: int, from: int, to: int)
    requires
        0 <= lo <= from < hi <= s.len(),
        lo <= to < hi,
    ensures
        rearranged(s, moved(s, from, to), lo, hi),
{
    let t = moved(s, from, to);
    lemma_moved_index(s, from, to);
    let inner = s.subrange(lo, hi);
    lemma_moved_index(inner, from - lo, to - lo);
    lemma_moved_multiset(inner, from - lo, to - lo);
    assert(t.subrange(lo, hi) =~= moved(inner, from - lo, to - lo));
}


/// Exchanging two elements of a range rearranges that range.
pub proof fn lemma_swapped_rearranged<T>(s: Seq<T>, lo: int, hi: int, i: int, j: int)
    requires
        0 <= lo <= i < hi <= s.len(),
        lo <= j < hi,
    ensures
        rearranged(s, swapped(s, i, j), lo, hi),
{
    let inner = s.subrange(lo, hi);
    lemma_swapped_multiset(inner, i - lo, j - lo);
    assert(swapped(s, i, j).subrange(lo, hi) =~= swapped(inner, i - lo, j - lo));
}

} // verus!
