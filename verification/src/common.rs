//! Traits of readers.
use vstd::prelude::*;

verus! {

/// Reads a `T` from a source `R`.
pub trait Reader<R, T>: Sized {
    type Error;

    /// Whether a read from `from` can be made.
    spec fn spec_can_read(&self, from: R) -> bool;

    /// Whether `r` is what a read from `from` gives.
    spec fn spec_read(&self, from: R, r: Result<T, Self::Error>) -> bool;

    fn read(&mut self, from: &mut R) -> (r: Result<T, Self::Error>)
        requires
            old(self).spec_can_read(*old(from)),
        ensures
            old(self).spec_read(*old(from), r),
    ;
}

/// Reads from a source `R` into a `T`.
pub trait ReaderTo<R, T>: Sized {
    type Error;

    /// Whether a read from `from` into `to` can be made.
    spec fn spec_can_read_to(&self, from: R, to: T) -> bool;

    /// Whether `to_after` and `r` are what a read from `from` into `to` gives.
    spec fn spec_read_to(&self, from: R, to: T, to_after: T, r: Result<(), Self::Error>) -> bool;

    fn read_to(&mut self, from: &mut R, to: &mut T) -> (r: Result<(), Self::Error>)
        requires
            old(self).spec_can_read_to(*old(from), *old(to)),
        ensures
            old(self).spec_read_to(*old(from), *old(to), *final(to), r),
    ;
}

} // verus!
