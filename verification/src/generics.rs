//! Booleans at the type level: a type that stands for a value known at
//! compile time.
use vstd::prelude::*;

verus! {

/// A type that stands for one boolean value.
pub trait Bool {
    /// The value that the type stands for.
    spec fn value() -> bool;

    /// The value that the type stands for.
    fn is_true() -> (b: bool)
        ensures
            b == Self::value(),
    ;
}

/// The type that stands for `false`.
pub struct False;

impl Bool for False {
    open spec fn value() -> bool {
        false
    }

    fn is_true() -> (b: bool) {
        false
    }
}

/// The type that stands for `true`.
pub struct True;

impl Bool for True {
    open spec fn value() -> bool {
        true
    }

    fn is_true() -> (b: bool) {
        true
    }
}

} // verus!
