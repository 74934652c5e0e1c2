use algocol::error::AgcErrorKind;
use algocol::sort::bubblesort;
use algocol::sort::insertionsort;
use algocol::sort::mergesort;
use algocol::sort::mergesort::{merge, merge_runs};
use algocol::sort::quicksort::{partition, quicksort_by, quicksort_recursively};
use algocol::sort::selectionsort;
use algocol::sort::timsort::{timsort, timsort_by, DEFAULT_RUN};
use algocol::sort::{is_sorted, is_sorted_by};
use std::cmp::Ordering;

#[test]
fn test_bubblesort() {
    let mut sequence: [i32; 3] = [3, 2, 1];
    let result = bubblesort::bubblesort(&mut sequence[..], true);
    println!("bubblesort result: {:?}", result);
    println!("bubblesort: {:?}", sequence);
    assert_eq!(sequence, [1, 2, 3]);
}

#[test]
fn test_selectionsort() {
    let mut sequence: [i32; 5] = [5, 4, 3, 2, 1];
    let result = selectionsort::selectionsort(&mut sequence[..], true);
    println!("selectionsort result: {:?}", result);
    println!("selectionsort: {:?}", sequence);
    assert_eq!(sequence, [1, 2, 3, 4, 5]);
}

#[test]
fn test_insertionsort() {
    let mut sequence: [i32; 5] = [1, 2, 3, 4, 5];
    let result = insertionsort::insertionsort(&mut sequence[..], false);
    println!("insertionsort result: {:?}", result);
    println!("insertionsort: {:?}", sequence);
    assert_eq!(sequence, [5, 4, 3, 2, 1]);
}

#[test]
fn test_mergesort() {
    let mut sequence: [i32; 5] = [5, 4, 3, 2, 1];
    let result = mergesort::mergesort(&mut sequence[..], true);
    println!("mergesort result: {:?}", result);
    println!("mergesort: {:?}", sequence);
    assert_eq!(sequence, [1, 2, 3, 4, 5]);
}

#[test]
fn test_merge() {
    let mut array = [7, 6, 1, 3, 6, 2, 4, 5, 8, 20];
    let result = merge(&mut array[..], 2, 4, 8, true, |a, b| a.cmp(b));
    println!("merge result: {:?}", result);
    assert_eq!(array, [7, 6, 1, 2, 3, 4, 5, 6, 8, 20]);
}

#[test]
fn test_mergesort_recursive() {
    let mut sequence: [i32; 5] = [5, 4, 3, 2, 1];
    let result = mergesort::mergesort_recursively(&mut sequence[..], true);
    println!("mergesort_recursive result: {:?}", result);
    println!("mergesort_recursive: {:?}", sequence);
    assert_eq!(sequence, [1, 2, 3, 4, 5]);
}

#[test]
fn test_timsort() {
    let mut sequence = (0..100).collect::<Vec<i32>>();
    sequence.reverse();
    let result = timsort_by(&mut sequence[..], true, DEFAULT_RUN, |a, b| a.cmp(b));
    println!("timsort result: {:?}", result);
    println!("timsort: {:?}", sequence);
    assert_eq!(sequence, (0..100).collect::<Vec<i32>>());
}

#[test]
fn test_quicksort() {
    let mut sequence = (0..100).collect::<Vec<i32>>();
    sequence.reverse();
    let result = quicksort_by(&mut sequence[..], true, |a, b| a.cmp(b));
    println!("quicksort result: {:?}", result);
    println!("quicksort: {:?}", sequence);
    assert_eq!(sequence, (0..100).collect::<Vec<i32>>());
}

#[test]
fn test_quicksort_recursive() {
    let mut sequence = (0..100).collect::<Vec<i32>>();
    sequence.reverse();
    let result = quicksort_recursively(&mut sequence[..], true);
    println!("quicksort_recursive result: {:?}", result);
    println!("quicksort_recursive: {:?}", sequence);
    assert_eq!(sequence, (0..100).collect::<Vec<i32>>());
}

#[test]
fn test_partition() {
    let mut sequence = [10, 80, 30, 90, 40, 50, 70];
    let result = partition(&mut sequence, 0, 7, true, |a, b| a.cmp(b));
    println!("quicksort result: {:?}", result);
    println!("quicksort: {:?}", sequence);
    assert_eq!(sequence, [10, 30, 40, 50, 70, 90, 80]);
    assert!(matches!(result, Ok(4)));
}

/// A sequence of numbers that looks shuffled and is the same at every run.
fn scrambled(length: usize, modulus: i64) -> Vec<i64> {
    let mut state: u64 = 0x2545_f491_4f6c_dd1d;
    let mut values = Vec::new();
    for _ in 0..length {
        state ^= state << 13;
        state ^= state >> 7;
        state ^= state << 17;
        values.push((state % (modulus as u64)) as i64);
    }
    values
}

/// Every sort of the library by its natural order, under its name.
fn natural_sorts() -> Vec<(&'static str, fn(&mut [i64], bool))> {
    vec![
        ("bubblesort", |s, a| {
            bubblesort::bubblesort(s, a).unwrap();
        }),
        ("insertionsort", |s, a| {
            insertionsort::insertionsort(s, a).unwrap();
        }),
        ("selectionsort", |s, a| {
            selectionsort::selectionsort(s, a).unwrap();
        }),
        ("mergesort", |s, a| {
            mergesort::mergesort(s, a).unwrap();
        }),
        ("mergesort_recursively", |s, a| {
            mergesort::mergesort_recursively(s, a).unwrap();
        }),
        ("quicksort", |s, a| {
            algocol::sort::quicksort::quicksort(s, a).unwrap();
        }),
        ("quicksort_recursively", |s, a| {
            quicksort_recursively(s, a).unwrap();
        }),
        ("timsort", |s, a| {
            timsort(s, a, DEFAULT_RUN).unwrap();
        }),
        ("timsort with short runs", |s, a| {
            timsort(s, a, 3).unwrap();
        }),
    ]
}

type Pair = (i64, usize);

fn by_number(a: &Pair, b: &Pair) -> Ordering {
    a.0.cmp(&b.0)
}

/// Every sort of the library by a comparison of the first field, under its
/// name, and whether it keeps elements of equal rank in their order.
fn keyed_sorts() -> Vec<(&'static str, bool, fn(&mut [Pair], bool))> {
    vec![
        ("bubblesort_by", true, |s, a| {
            bubblesort::bubblesort_by(s, a, by_number).unwrap();
        }),
        ("insertionsort_by", true, |s, a| {
            insertionsort::insertionsort_by(s, a, by_number).unwrap();
        }),
        ("selectionsort_by", true, |s, a| {
            selectionsort::selectionsort_by(s, a, by_number).unwrap();
        }),
        ("mergesort_by", true, |s, a| {
            mergesort::mergesort_by(s, a, by_number).unwrap();
        }),
        ("mergesort_recursively_by", true, |s, a| {
            mergesort::mergesort_recursively_by(s, a, by_number).unwrap();
        }),
        ("quicksort_by", false, |s, a| {
            quicksort_by(s, a, by_number).unwrap();
        }),
        ("quicksort_recursively_by", false, |s, a| {
            algocol::sort::quicksort::quicksort_recursively_by(s, a, by_number).unwrap();
        }),
        ("timsort_by", true, |s, a| {
            timsort_by(s, a, 4, by_number).unwrap();
        }),
    ]
}

#[test]
fn every_sort_orders_five_to_one() {
    for (name, sort) in natural_sorts() {
        let mut sequence = [5, 4, 3, 2, 1];
        sort(&mut sequence[..], true);
        assert_eq!(sequence, [1, 2, 3, 4, 5], "{}", name);
        sort(&mut sequence[..], false);
        assert_eq!(sequence, [5, 4, 3, 2, 1], "{}", name);
    }
}

#[test]
fn every_sort_keeps_the_elements_and_orders_them() {
    for length in [0usize, 1, 2, 3, 7, 32, 33, 64, 65, 100, 257] {
        for ascending in [true, false] {
            for (name, sort) in natural_sorts() {
                let given = scrambled(length, 50);
                let mut sequence = given.clone();
                sort(&mut sequence[..], ascending);
                assert!(is_sorted(&sequence[..], ascending), "{} {}", name, length);
                let mut expected = given.clone();
                expected.sort();
                if !ascending {
                    expected.reverse();
                }
                assert_eq!(sequence, expected, "{} {}", name, length);
            }
        }
    }
}

#[test]
fn every_sort_leaves_an_ordered_sequence_as_it_is() {
    for ascending in [true, false] {
        for (name, _, sort) in keyed_sorts() {
            let mut sequence: Vec<Pair> =
                scrambled(60, 7).into_iter().map(|n| (n, 0)).collect();
            sequence.sort_by(by_number);
            if !ascending {
                sequence.reverse();
            }
            for (place, pair) in sequence.iter_mut().enumerate() {
                pair.1 = place;
            }
            let before = sequence.clone();
            sort(&mut sequence[..], ascending);
            assert_eq!(sequence, before, "{}", name);
        }
    }
}

#[test]
fn sorts_that_are_stable_keep_equals_in_their_order() {
    for ascending in [true, false] {
        for (name, stable, sort) in keyed_sorts() {
            let mut sequence: Vec<Pair> = scrambled(90, 5)
                .into_iter()
                .enumerate()
                .map(|(place, n)| (n, place))
                .collect();
            let mut expected = sequence.clone();
            expected.sort_by(|a, b| if ascending { by_number(a, b) } else { by_number(b, a) });
            sort(&mut sequence[..], ascending);
            assert!(
                is_sorted_by(&sequence[..], ascending, by_number),
                "{}",
                name
            );
            if stable {
                assert_eq!(sequence, expected, "{}", name);
            } else {
                let mut got = sequence.clone();
                got.sort();
                expected.sort();
                assert_eq!(got, expected, "{}", name);
            }
        }
    }
}

#[test]
fn sorts_return_the_slice_they_were_given() {
    let mut sequence = [3, 1, 2];
    let sorted = insertionsort::insertionsort(&mut sequence[..], true).unwrap();
    sorted[0] = 10;
    assert_eq!(sequence, [10, 2, 3]);
}

#[test]
fn is_sorted_checks_neighbours_in_the_direction() {
    let array = [5, 4, 3, 2, 1];
    assert!(is_sorted(&array[..], false));
    assert!(!is_sorted(&array[..], true));
    assert!(is_sorted_by(&array[..], false, |a, b| a.cmp(b)));
    assert!(!is_sorted_by(&array[..], true, |a, b| a.cmp(b)));
    let equals = [2, 2, 2];
    assert!(is_sorted(&equals[..], true));
    assert!(is_sorted(&equals[..], false));
    let empty: [i32; 0] = [];
    assert!(is_sorted(&empty[..], true));
    assert!(is_sorted(&[7][..], false));
    assert!(!is_sorted(&[1, 2, 3, 2][..], true));
    assert!(!is_sorted(&[3, 2, 1, 2][..], false));
}

#[test]
fn merge_of_the_documented_runs() {
    let mut array = [7, 6, 1, 3, 5, 2, 4, 6, 8];
    merge(&mut array[..], 2, 4, 8, true, |a, b| a.cmp(b)).unwrap();
    assert_eq!(array, [7, 6, 1, 2, 3, 4, 5, 6, 8]);
}

#[test]
fn merge_puts_the_left_run_first_among_equals() {
    let mut array: [Pair; 6] = [(1, 0), (2, 1), (2, 2), (1, 3), (2, 4), (3, 5)];
    merge(&mut array[..], 0, 2, 5, true, by_number).unwrap();
    assert_eq!(array, [(1, 0), (1, 3), (2, 1), (2, 2), (2, 4), (3, 5)]);
    let mut array: [Pair; 4] = [(2, 0), (1, 1), (2, 2), (1, 3)];
    merge(&mut array[..], 0, 1, 3, false, by_number).unwrap();
    assert_eq!(array, [(2, 0), (2, 2), (1, 1), (1, 3)]);
}

#[test]
fn merge_with_an_empty_second_run_changes_nothing() {
    let mut array = [3, 1, 2];
    merge(&mut array[..], 0, 2, 2, true, |a, b| a.cmp(b)).unwrap();
    assert_eq!(array, [3, 1, 2]);
}

#[test]
fn merge_refuses_bounds_in_the_wrong_order() {
    let mut array = [1, 2, 3, 4];
    let error = merge(&mut array[..], 2, 1, 3, true, |a, b| a.cmp(b)).unwrap_err();
    assert_eq!(error.kind(), AgcErrorKind::WrongOrder);
    assert_eq!(
        error.description(),
        "Left (2) cannot be greater than middle (1)"
    );
    let error = merge(&mut array[..], 0, 3, 2, true, |a, b| a.cmp(b)).unwrap_err();
    assert_eq!(error.kind(), AgcErrorKind::WrongOrder);
    assert_eq!(
        error.description(),
        "Right (2) cannot be smaller than middle (3)"
    );
    assert_eq!(array, [1, 2, 3, 4]);
}

#[test]
fn merge_refuses_bounds_beyond_the_slice() {
    let mut array = [1, 2, 3, 4];
    let error = merge(&mut array[..], 0, 1, 4, true, |a, b| a.cmp(b)).unwrap_err();
    assert_eq!(error.kind(), AgcErrorKind::OutOfBounds);
    assert_eq!(error.description(), "Right (4) is out of bounds.");
    let error = merge(&mut array[..], 1, 7, 9, true, |a, b| a.cmp(b)).unwrap_err();
    assert_eq!(error.kind(), AgcErrorKind::OutOfBounds);
    assert_eq!(error.description(), "Middle (7) is out of bounds.");
    let error = merge(&mut array[..], 4, 4, 4, true, |a, b| a.cmp(b)).unwrap_err();
    assert_eq!(error.kind(), AgcErrorKind::OutOfBounds);
    assert_eq!(error.description(), "Left (4) is out of bounds.");
    let mut empty: [i32; 0] = [];
    let error = merge(&mut empty[..], 0, 0, 0, true, |a, b| a.cmp(b)).unwrap_err();
    assert_eq!(error.kind(), AgcErrorKind::OutOfBounds);
    assert_eq!(array, [1, 2, 3, 4]);
}

#[test]
fn merge_runs_merges_ordered_runs_of_a_width() {
    let mut array = [4, 5, 6, 1, 2, 3, 7, 9, 11, 0, 8];
    merge_runs(&mut array[..], 3, true, |a, b| a.cmp(b)).unwrap();
    assert_eq!(array, [0, 1, 2, 3, 4, 5, 6, 7, 8, 9, 11]);
}

#[test]
fn partition_splits_around_the_last_element() {
    let mut sequence = [5, 9, 1, 5, 8, 2, 5];
    let pivot = partition(&mut sequence, 0, 7, true, |a, b| a.cmp(b)).unwrap();
    assert_eq!(pivot, 4);
    assert_eq!(sequence[pivot], 5);
    assert_eq!(&sequence[..pivot], &[5, 1, 5, 2]);
    assert!(sequence[pivot + 1..].iter().all(|n| *n > 5));
    let mut sequence = [5, 9, 1, 5, 8, 2, 5];
    let pivot = partition(&mut sequence, 0, 7, false, |a, b| a.cmp(b)).unwrap();
    assert_eq!(pivot, 4);
    assert_eq!(&sequence[..pivot], &[5, 9, 5, 8]);
    assert!(sequence[pivot + 1..].iter().all(|n| *n < 5));
}

#[test]
fn partition_of_a_part_leaves_the_rest_alone() {
    let mut sequence = [9, 8, 3, 1, 2, 0, 7];
    let pivot = partition(&mut sequence, 2, 5, true, |a, b| a.cmp(b)).unwrap();
    assert_eq!(pivot, 3);
    assert_eq!(sequence, [9, 8, 1, 2, 3, 0, 7]);
}

#[test]
fn partition_of_one_element() {
    let mut sequence = [4];
    assert!(matches!(
        partition(&mut sequence, 0, 1, true, |a, b| a.cmp(b)),
        Ok(0)
    ));
    assert_eq!(sequence, [4]);
}

#[test]
fn partition_of_an_ordered_range_changes_nothing() {
    let mut sequence = [1, 2, 2, 3, 4];
    let pivot = partition(&mut sequence, 0, 5, true, |a, b| a.cmp(b)).unwrap();
    assert_eq!(pivot, 4);
    assert_eq!(sequence, [1, 2, 2, 3, 4]);
}

#[test]
fn partition_refuses_bad_bounds() {
    let mut sequence = [3, 1, 2];
    let error = partition(&mut sequence, 2, 1, true, |a, b| a.cmp(b)).unwrap_err();
    assert_eq!(error.kind(), AgcErrorKind::WrongOrder);
    assert_eq!(
        error.description(),
        "Left (2) must be less than or equal to right (1)"
    );
    let error = partition(&mut sequence, 3, 4, true, |a, b| a.cmp(b)).unwrap_err();
    assert_eq!(error.kind(), AgcErrorKind::OutOfBounds);
    assert_eq!(error.description(), "Left (3) must be less than length (3)");
    let error = partition(&mut sequence, 0, 4, true, |a, b| a.cmp(b)).unwrap_err();
    assert_eq!(error.kind(), AgcErrorKind::OutOfBounds);
    assert_eq!(
        error.description(),
        "Right (4) must be less than or equal to length (3)"
    );
    assert_eq!(sequence, [3, 1, 2]);
    let mut empty: [i32; 0] = [];
    let error = partition(&mut empty, 0, 1, true, |a, b| a.cmp(b)).unwrap_err();
    assert_eq!(error.kind(), AgcErrorKind::OutOfBounds);
}

#[test]
fn timsort_with_a_run_of_one_and_with_a_long_run() {
    let given = scrambled(40, 100);
    let mut expected = given.clone();
    expected.sort();
    let mut sequence = given.clone();
    timsort(&mut sequence[..], true, 1).unwrap();
    assert_eq!(sequence, expected);
    let mut sequence = given.clone();
    timsort(&mut sequence[..], true, 1000).unwrap();
    assert_eq!(sequence, expected);
    let mut sequence = given.clone();
    timsort(&mut sequence[..], true, usize::MAX).unwrap();
    assert_eq!(sequence, expected);
    let mut one = [1];
    timsort(&mut one[..], true, 0).unwrap();
    assert_eq!(one, [1]);
    assert_eq!(DEFAULT_RUN, 32);
}

#[test]
fn the_stable_sorts_agree() {
    for ascending in [true, false] {
        let given: Vec<Pair> = scrambled(75, 6)
            .into_iter()
            .enumerate()
            .map(|(place, n)| (n, place))
            .collect();
        let mut first: Option<Vec<Pair>> = None;
        for (name, stable, sort) in keyed_sorts() {
            if !stable {
                continue;
            }
            let mut sequence = given.clone();
            sort(&mut sequence[..], ascending);
            match &first {
                Some(expected) => assert_eq!(&sequence, expected, "{}", name),
                None => first = Some(sequence),
            }
        }
    }
}
