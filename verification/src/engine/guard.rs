//! A wrapper that marks a value as having passed validation.

use std::ops::Deref;
use vstd::prelude::*;

verus! {

/// A type with a notion of validity that `Guard` protects.
pub trait Validated {
    /// Whether the value meets every rule of the game that applies to it.
    spec fn valid(&self) -> bool;
}

/// A value that is known to be valid.
///
/// The wrapper gives read access to its content and can be taken apart, but
/// the content cannot be changed in place, so a `Guard` never holds an
/// invalid value.
#[derive(Debug)]
pub struct Guard<T: Validated>(T);

impl<T: Validated> View for Guard<T> {
    type V = T;

    closed spec fn view(&self) -> T {
        self.0
    }
}

impl<T: Validated> Guard<T> {
    /// The content of every guard is valid.
    #[verifier::type_invariant]
    pub closed spec fn inv(self) -> bool {
        self.0.valid()
    }

    /// Takes the wrapper apart and returns its content, which is valid.
    pub fn into_inner(self) -> (value: T)
        ensures
            value == self@,
            value.valid(),
    {
        proof {
            use_type_invariant(&self);
        }
        self.0
    }

    /// Wraps a value that the caller has shown to be valid.
    pub fn new_unchecked(value: T) -> (guard: Guard<T>)
        requires
            value.valid(),
        ensures
            guard@ == value,
    {
        Guard(value)
    }
}

impl<T: Validated> Deref for Guard<T> {
    type Target = T;

    /// The content of the guard, to read.
    fn deref(&self) -> (value: &T)
        ensures
            *value == self@,
            value.valid(),
    {
        proof {
            use_type_invariant(self);
        }
        &self.0
    }
}

} // verus!
