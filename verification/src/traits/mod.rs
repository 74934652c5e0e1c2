//! The traits that bound the types that this crate works on.

use std::hash::Hash;
use vstd::prelude::*;

verus! {

/// `AgcHashable` is implemented by the types that implement
/// `std::hash::Hash`, `PartialEq` and `Eq`: such a type can be the key of a
/// hash collection such as `std::collections::HashMap`.
pub trait AgcHashable: Hash + PartialEq + Eq {

}

impl<T: Hash + PartialEq + Eq> AgcHashable for T {

}

} // verus!
