use algocol::binarysearch::{
    binarysearch, binarysearch_by, binarysearch_unchecked, binarysearch_unchecked_by,
};
use algocol::error::AgcErrorKind;

#[test]
fn test_binarysearch_unchecked() {
    let array = [0, 2, 4, 6, 8];
    let mut location: usize = 0;
    if location == 0 {}
    location = binarysearch_unchecked(&array[..], &5, true);
    println!("Where 5 should be: {}", location);
    location = binarysearch_unchecked(&array[..], &-1, true);
    println!("Where -1 should be: {}", location);
    location = binarysearch_unchecked(&array[..], &9, true);
    println!("Where 9 should be: {}", location);
    location = binarysearch_unchecked(&array[..], &0, true);
    println!("Where 0 should be: {}", location);
    location = binarysearch_unchecked(&array[..], &8, true);
    println!("Where 8 should be: {}", location);
    location = binarysearch_unchecked(&array[..], &1, true);
    println!("Where 1 should be: {}", location);
    location = binarysearch_unchecked(&array[..], &7, true);
    println!("Where 7 should be: {}", location);
}

#[test]
fn unchecked_search_finds_the_insertion_point() {
    let array = [0, 2, 4, 6, 8];
    assert_eq!(binarysearch_unchecked(&array[..], &5, true), 3);
    assert_eq!(binarysearch_unchecked(&array[..], &-1, true), 0);
    assert_eq!(binarysearch_unchecked(&array[..], &9, true), 5);
    assert_eq!(binarysearch_unchecked(&array[..], &1, true), 1);
    assert_eq!(binarysearch_unchecked(&array[..], &3, true), 2);
    assert_eq!(binarysearch_unchecked(&array[..], &7, true), 4);
}

#[test]
fn unchecked_search_returns_the_place_of_a_match() {
    let array = [0, 2, 4, 6, 8];
    assert_eq!(binarysearch_unchecked(&array[..], &2, true), 1);
    assert_eq!(binarysearch_unchecked(&array[..], &4, true), 2);
    assert_eq!(binarysearch_unchecked(&array[..], &6, true), 3);
    assert_eq!(binarysearch_unchecked(&array[..], &8, true), 4);
}

#[test]
fn unchecked_search_does_not_look_at_the_first_element_for_a_match() {
    let array = [0, 2, 4, 6, 8];
    assert_eq!(binarysearch_unchecked(&array[..], &0, true), 1);
    let twice = [3, 3, 5];
    assert_eq!(binarysearch_unchecked(&twice[..], &3, true), 1);
}

#[test]
fn unchecked_search_on_short_sequences() {
    let empty: [i32; 0] = [];
    assert_eq!(binarysearch_unchecked(&empty[..], &1, true), 0);
    assert_eq!(binarysearch_unchecked(&empty[..], &1, false), 0);
    let one = [5];
    assert_eq!(binarysearch_unchecked(&one[..], &4, true), 0);
    assert_eq!(binarysearch_unchecked(&one[..], &5, true), 0);
    assert_eq!(binarysearch_unchecked(&one[..], &6, true), 1);
    assert_eq!(binarysearch_unchecked(&one[..], &4, false), 1);
    assert_eq!(binarysearch_unchecked(&one[..], &5, false), 0);
    assert_eq!(binarysearch_unchecked(&one[..], &6, false), 0);
}

#[test]
fn unchecked_search_in_descending_order() {
    let array = [8, 6, 4, 2, 0];
    assert_eq!(binarysearch_unchecked(&array[..], &9, false), 0);
    assert_eq!(binarysearch_unchecked(&array[..], &7, false), 1);
    assert_eq!(binarysearch_unchecked(&array[..], &6, false), 1);
    assert_eq!(binarysearch_unchecked(&array[..], &5, false), 2);
    assert_eq!(binarysearch_unchecked(&array[..], &1, false), 4);
    assert_eq!(binarysearch_unchecked(&array[..], &-1, false), 5);
}

#[test]
fn unchecked_search_splits_an_ordered_sequence() {
    let array = [1, 3, 3, 5, 7, 7, 7, 9, 11];
    for item in [0, 2, 4, 6, 8, 10, 12] {
        let place = binarysearch_unchecked(&array[..], &item, true);
        assert!(array[..place].iter().all(|element| *element < item));
        assert!(array[place..].iter().all(|element| *element >= item));
    }
}

#[test]
fn unchecked_search_among_equals_returns_one_of_them() {
    let array = [1, 3, 3, 3, 3, 3, 9];
    let place = binarysearch_unchecked(&array[..], &3, true);
    assert!(place >= 1 && place <= 5);
    assert_eq!(array[place], 3);
}

#[test]
fn unchecked_search_on_an_unordered_sequence_stays_within_it() {
    let array = [0, 8, 2, 6, 4];
    let location = binarysearch_unchecked(&array[..], &5, true);
    assert!(location <= array.len());
    assert_eq!(location, 5);
}

#[test]
fn unchecked_search_by_a_key() {
    let array = [(1, 'a'), (3, 'b'), (5, 'c'), (7, 'd')];
    let by_number = |a: &(i32, char), b: &(i32, char)| a.0.cmp(&b.0);
    assert_eq!(binarysearch_unchecked_by(&array[..], &(5, 'x'), true, by_number), 2);
    assert_eq!(binarysearch_unchecked_by(&array[..], &(4, 'x'), true, by_number), 2);
    assert_eq!(binarysearch_unchecked_by(&array[..], &(8, 'x'), true, by_number), 4);
}

#[test]
fn checked_search_tells_a_match_from_an_insertion_point() {
    let array = [0, 2, 4, 6, 8];
    assert_eq!(binarysearch(&array[..], &5, true), Ok(Err(3)));
    assert_eq!(binarysearch(&array[..], &4, true), Ok(Ok(2)));
    assert_eq!(binarysearch(&array[..], &8, true), Ok(Ok(4)));
    assert_eq!(binarysearch(&array[..], &-3, true), Ok(Err(0)));
    assert_eq!(
        binarysearch_by(&array[..], &5, true, |a, b| a.cmp(b)),
        Ok(Err(3))
    );
    assert_eq!(
        binarysearch_by(&array[..], &6, true, |a, b| a.cmp(b)),
        Ok(Ok(3))
    );
}

#[test]
fn checked_search_past_the_end_reports_the_length() {
    let array = [0, 2, 4, 6, 8];
    assert_eq!(binarysearch(&array[..], &9, true), Ok(Err(5)));
    assert_eq!(
        binarysearch_by(&array[..], &9, true, |a, b| a.cmp(b)),
        Ok(Err(5))
    );
    let empty: [i32; 0] = [];
    assert_eq!(binarysearch(&empty[..], &9, true), Ok(Err(0)));
    assert_eq!(
        binarysearch_by(&empty[..], &9, false, |a, b| a.cmp(b)),
        Ok(Err(0))
    );
}

#[test]
fn checked_search_refuses_an_unordered_sequence() {
    let array = [0, 8, 2, 6, 4];
    let location = binarysearch(&array[..], &5, true);
    assert!(matches!(location, Err(_)));
    let error = location.unwrap_err();
    assert_eq!(error.kind(), AgcErrorKind::Unordered);
    assert_eq!(error.description(), "sequence is not sorted.");
    let location = binarysearch_by(&array[..], &5, true, |a, b| a.cmp(b));
    assert_eq!(location.unwrap_err().kind(), AgcErrorKind::Unordered);
    let ascending = [0, 2, 4, 6, 8];
    assert!(matches!(binarysearch(&ascending[..], &5, false), Err(_)));
}
