use algocol::error::{AgcError, AgcErrorKind};
use algocol::utils::priority::{
    eq, ge, gt, is_after, is_before, is_eq, is_ge, is_gt, is_le, is_lt, le, lt,
};
use algocol::utils::slice::transfer_element;
use std::cmp::Ordering;

#[test]
fn transfer_moves_an_element_towards_the_front() {
    let mut array: [i32; 5] = [0, 1, 2, 3, 4];
    transfer_element(&mut array[..], 4, 1).unwrap();
    assert_eq!(array, [0, 4, 1, 2, 3]);
}

#[test]
fn transfer_moves_an_element_towards_the_back() {
    let mut array: [i32; 5] = [0, 1, 2, 3, 4];
    transfer_element(&mut array[..], 1, 3).unwrap();
    assert_eq!(array, [0, 2, 3, 1, 4]);
    transfer_element(&mut array[..], 0, 4).unwrap();
    assert_eq!(array, [2, 3, 1, 4, 0]);
}

#[test]
fn transfer_to_the_same_place_changes_nothing() {
    let mut array: [i32; 3] = [7, 8, 9];
    transfer_element(&mut array[..], 1, 1).unwrap();
    assert_eq!(array, [7, 8, 9]);
}

#[test]
fn transfer_refuses_a_place_outside_the_slice() {
    let mut array: [i32; 3] = [7, 8, 9];
    let error = transfer_element(&mut array[..], 3, 0).unwrap_err();
    assert_eq!(error.kind(), AgcErrorKind::OutOfBounds);
    assert_eq!(
        error.description(),
        "from and to must be smaller than the length of the slice."
    );
    let error = transfer_element(&mut array[..], 0, 3).unwrap_err();
    assert_eq!(error.kind(), AgcErrorKind::OutOfBounds);
    assert_eq!(array, [7, 8, 9]);
    let mut empty: [i32; 0] = [];
    assert!(transfer_element(&mut empty[..], 0, 0).is_err());
}

#[test]
fn an_ordering_is_told_apart() {
    assert!(is_lt(Ordering::Less));
    assert!(!is_lt(Ordering::Equal));
    assert!(!is_lt(Ordering::Greater));
    assert!(is_le(Ordering::Less));
    assert!(is_le(Ordering::Equal));
    assert!(!is_le(Ordering::Greater));
    assert!(!is_eq(Ordering::Less));
    assert!(is_eq(Ordering::Equal));
    assert!(!is_eq(Ordering::Greater));
    assert!(!is_ge(Ordering::Less));
    assert!(is_ge(Ordering::Equal));
    assert!(is_ge(Ordering::Greater));
    assert!(!is_gt(Ordering::Less));
    assert!(!is_gt(Ordering::Equal));
    assert!(is_gt(Ordering::Greater));
}

#[test]
fn an_ordering_is_read_in_a_direction() {
    assert!(is_before(Ordering::Less, true));
    assert!(!is_before(Ordering::Equal, true));
    assert!(!is_before(Ordering::Greater, true));
    assert!(is_before(Ordering::Greater, false));
    assert!(!is_before(Ordering::Equal, false));
    assert!(!is_before(Ordering::Less, false));
    assert!(is_after(Ordering::Greater, true));
    assert!(!is_after(Ordering::Equal, true));
    assert!(!is_after(Ordering::Less, true));
    assert!(is_after(Ordering::Less, false));
    assert!(!is_after(Ordering::Equal, false));
    assert!(!is_after(Ordering::Greater, false));
}

#[test]
fn two_items_are_compared() {
    assert!(gt(&2, &1) && !gt(&1, &1) && !gt(&0, &1));
    assert!(ge(&2, &1) && ge(&1, &1) && !ge(&0, &1));
    assert!(!eq(&2, &1) && eq(&1, &1) && !eq(&0, &1));
    assert!(!lt(&2, &1) && !lt(&1, &1) && lt(&0, &1));
    assert!(!le(&2, &1) && le(&1, &1) && le(&0, &1));
}

#[test]
fn an_error_has_a_kind_and_a_description() {
    let error = AgcError::new(AgcErrorKind::NotFound, "Could not be found.");
    assert_eq!(error.kind(), AgcErrorKind::NotFound);
    assert_eq!(error.description(), "Could not be found.");
    assert_eq!(error.to_string(), "NotFound: Could not be found.");
    assert_eq!(
        error,
        AgcError::new(AgcErrorKind::NotFound, "Could not be found.")
    );
    assert_ne!(error, AgcError::new(AgcErrorKind::Other, "Could not be found."));
}

#[test]
fn each_kind_of_error_has_its_name() {
    assert_eq!(AgcErrorKind::OutOfBounds.to_string(), "OutOfBounds");
    assert_eq!(AgcErrorKind::WrongOrder.to_string(), "WrongOrder");
    assert_eq!(AgcErrorKind::Unordered.to_string(), "Unordered");
    assert_eq!(AgcErrorKind::AlreadyExists.to_string(), "AlreadyExists");
    assert_eq!(AgcErrorKind::SameNode.to_string(), "SameNode");
    assert_eq!(AgcErrorKind::NotFound.to_string(), "NotFound");
    assert_eq!(AgcErrorKind::Other.to_string(), "Other");
}

#[test]
fn a_slice_of_less_than_two_elements_is_sorted_already() {
    assert!(algocol::sort::already_sorted(0));
    assert!(algocol::sort::already_sorted(1));
    assert!(!algocol::sort::already_sorted(2));
    assert!(!algocol::sort::already_sorted(usize::MAX));
}
