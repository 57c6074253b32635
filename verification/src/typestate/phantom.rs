//! A covariant phantom marker and the sealed-trait pattern.
//!
//! `PhantomData<T>` is covariant over `T`; [`Covariant`] names that choice
//! explicitly in typestate encodings.
use vstd::prelude::*;
use core::marker::PhantomData;

verus! {

/// Phantom marker that is **covariant** over `T` (like `PhantomData<T>`).
#[derive(Debug)]
pub struct Covariant<T>(PhantomData<T>);

impl<T> Covariant<T> {
    /// Construct a zero-sized covariant marker.
    pub fn new() -> (r: Self) {
        Covariant(PhantomData)
    }
}

/// Construct a [`Covariant`] marker for `T`.
pub fn covariant<T>() -> (r: Covariant<T>) {
    Covariant::new()
}

impl<T> Clone for Covariant<T> {
    fn clone(&self) -> (r: Self) {
        Covariant(PhantomData)
    }
}

impl<T> Copy for Covariant<T> {
}

impl<T> Default for Covariant<T> {
    fn default() -> (r: Self) {
        Covariant::new()
    }
}

impl<T> PartialEq for Covariant<T> {
    fn eq(&self, _other: &Self) -> (r: bool) {
        true
    }
}

impl<T> vstd::std_specs::cmp::PartialEqSpecImpl for Covariant<T> {
    open spec fn obeys_eq_spec() -> bool {
        true
    }

    open spec fn eq_spec(&self, other: &Covariant<T>) -> bool {
        true
    }
}

impl<T> Eq for Covariant<T> {
}

impl<T> core::hash::Hash for Covariant<T> {
    fn hash<H: core::hash::Hasher>(&self, _state: &mut H) {
    }
}

/// Sealing trait for the sealed-trait pattern.
///
/// Implement this in the same crate that owns the public trait you want to
/// keep non-implementable downstream, then have that public trait have
/// `Sealed` as a supertrait.
pub trait Sealed {
}

} // verus!
