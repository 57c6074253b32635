//! Newtype wrappers with conversion glue over an inner type.
//!
//! A newtype is the cheapest way to give a distinct type to a value that
//! would otherwise be a bare primitive, gaining the type system's help in
//! preventing accidental mixing. [`Newtype`] provides the conversion trait
//! surface: wrapping and unwrapping are inverse to each other.
use vstd::prelude::*;

verus! {

/// Conversion surface between a newtype and its inner representation.
pub trait Newtype: Sized {
    /// The wrapped representation type.
    type Inner;

    /// The inner value a newtype value wraps.
    spec fn wrapped(&self) -> Self::Inner;

    /// Wrap an inner value. This is infallible — the newtype's invariant, if
    /// any, is the caller's responsibility (use a constructor for checked
    /// variants).
    fn from_inner(inner: Self::Inner) -> (r: Self)
        ensures
            r.wrapped() == inner,
    ;

    /// Unwrap to the inner value.
    fn into_inner(self) -> (r: Self::Inner)
        ensures
            r == self.wrapped(),
    ;
}

} // verus!
