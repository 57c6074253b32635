//! Refinement types.
//!
//! A [`Refined<T, P>`] is a value of type `T` that is known to satisfy the
//! predicate `P`. [`Refined::new`] refuses to wrap a value that fails
//! `P::check`, and the type invariant guarantees that any `Refined` in scope
//! satisfies its predicate.
//!
//! Refinement predicates compose with [`crate::contract::Invariant`]: a type
//! implementing `Invariant` can be used directly as a refinement predicate
//! via the blanket [`Predicate`] impl below.
use vstd::prelude::*;
use core::marker::PhantomData;
use crate::contract::Invariant;

verus! {

/// A predicate that a refinement type requires of its inner value.
pub trait Predicate<T> {
    /// Whether `value` satisfies this refinement.
    spec fn holds(value: T) -> bool;

    /// Return `true` if `value` satisfies this refinement.
    fn check(value: &T) -> (r: bool)
        ensures
            r == Self::holds(*value),
    ;
}

/// Blanket: any type's own [`Invariant`] is a valid refinement predicate.
impl<T: Invariant> Predicate<T> for T {
    open spec fn holds(value: T) -> bool {
        value.inv()
    }

    fn check(value: &T) -> (r: bool) {
        value.check()
    }
}

/// A value of type `T` refined by predicate `P`.
pub struct Refined<T, P: Predicate<T>> {
    value: T,
    _marker: PhantomData<P>,
}

/// Error returned when a value fails its refinement predicate.
#[derive(Clone, Copy, Debug, PartialEq, Eq)]
pub struct RefineError {
    /// A description of the failing predicate: a fixed text, since the
    /// predicate's type name is not available to this library.
    pub predicate: &'static str,
}

impl<T, P: Predicate<T>> Refined<T, P> {
    #[verifier::type_invariant]
    closed spec fn satisfied(self) -> bool {
        P::holds(self.value)
    }

    /// The refined value.
    pub closed spec fn spec_value(self) -> T {
        self.value
    }

    /// Refine `value`, returning `Err` if `P::check(&value)` is false.
    pub fn new(value: T) -> (r: Result<Self, RefineError>)
        ensures
            r is Ok <==> P::holds(value),
            r matches Ok(x) ==> x.spec_value() == value,
            r matches Err(e) ==> e.predicate@ == "refinement predicate"@,
    {
        if P::check(&value) {
            Ok(Refined { value, _marker: PhantomData })
        } else {
            proof {
                reveal_strlit("refinement predicate");
            }
            Err(RefineError { predicate: "refinement predicate" })
        }
    }

    /// Construct without checking at run time: the caller proves that
    /// `value` satisfies `P`. Prefer [`Refined::new`].
    pub fn new_unchecked(value: T) -> (r: Self)
        requires
            P::holds(value),
        ensures
            r.spec_value() == value,
    {
        Refined { value, _marker: PhantomData }
    }

    /// Borrow the refined value (still satisfies `P`).
    pub fn get(&self) -> (r: &T)
        ensures
            *r == self.spec_value(),
            P::holds(*r),
    {
        proof {
            use_type_invariant(self);
        }
        &self.value
    }

    /// Consume the refinement and recover the inner value.
    pub fn into_inner(self) -> (r: T)
        ensures
            r == self.spec_value(),
            P::holds(r),
    {
        proof {
            use_type_invariant(&self);
        }
        self.value
    }

    /// Map the inner value, preserving the refinement `P`: the caller proves
    /// that `f` maps a value satisfying `P` to one satisfying `P`.
    pub fn map<U, F: FnOnce(T) -> U>(self, f: F) -> (r: Refined<U, P>) where P: Predicate<U>
        requires
            call_requires(f, (self.spec_value(),)),
            forall|u: U| call_ensures(f, (self.spec_value(),), u) ==> <P as Predicate<U>>::holds(u),
        ensures
            call_ensures(f, (self.spec_value(),), r.spec_value()),
    {
        let v = f(self.value);
        Refined { value: v, _marker: PhantomData }
    }
}

impl<T: Copy, P: Predicate<T>> Clone for Refined<T, P> {
    fn clone(&self) -> (r: Self)
        ensures
            r.spec_value() == self.spec_value(),
    {
        proof {
            use_type_invariant(self);
        }
        Refined { value: self.value, _marker: PhantomData }
    }
}

impl<T: Copy, P: Predicate<T>> Copy for Refined<T, P> {
}

} // verus!
