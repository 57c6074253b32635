//! Typestate tokens and values annotated with a state or a predicate.
//!
//! A state or predicate carried in a type parameter has no runtime cost —
//! it is erased to a phantom — but it lets the compiler distinguish values
//! that satisfy different invariants. Nothing here can check the state: the
//! code that wraps a value vouches for it.
use vstd::prelude::*;
use core::marker::PhantomData;

verus! {

/// Marker trait for typestate *states*.
///
/// A state is a zero-sized type that classifies a [`Stateful`] value.
pub trait State {
}

/// A zero-sized typestate token of state `S`.
///
/// Tokens are useful as proof objects: a function that requires a value to be
/// in state `S` takes a `Token<S>` (obtained from a transition), and the
/// compiler enforces that the caller performed the transition.
pub struct Token<S: State>(PhantomData<S>);

impl<S: State> Token<S> {
    /// Construct a typestate token. Tokens carry no information — they only
    /// attest to a type-level fact.
    pub fn new() -> (r: Self) {
        Token(PhantomData)
    }
}

impl<S: State> Default for Token<S> {
    fn default() -> (r: Self) {
        Self::new()
    }
}

impl<S: State> Clone for Token<S> {
    fn clone(&self) -> (r: Self) {
        Token(PhantomData)
    }
}

impl<S: State> Copy for Token<S> {
}

/// A value `T` annotated with typestate `S`.
///
/// The wrapped value is unchanged; only the phantom state is tracked.
pub struct Stateful<S: State, T> {
    _state: PhantomData<S>,
    value: T,
}

impl<S: State, T> View for Stateful<S, T> {
    type V = T;

    closed spec fn view(&self) -> T {
        self.value
    }
}

impl<S: State, T> Stateful<S, T> {
    /// Wrap `value` as being in state `S`. The caller vouches that `value`
    /// satisfies the invariant that `S` expresses.
    pub fn new_unchecked(value: T) -> (r: Self)
        ensures
            r@ == value,
    {
        Stateful { _state: PhantomData, value }
    }

    /// Consume the state annotation and recover the inner value.
    pub fn into_inner(self) -> (r: T)
        ensures
            r == self@,
    {
        self.value
    }

    /// Borrow the inner value.
    pub fn as_ref(&self) -> (r: &T)
        ensures
            *r == self@,
    {
        &self.value
    }
}

impl<S: State, T: Clone> Stateful<S, T> {
    /// Clone the inner value, keeping the same state.
    pub fn cloned(&self) -> (r: T)
        ensures
            cloned(self@, r),
    {
        self.value.clone()
    }
}

/// A value `T` annotated with a logical predicate `P`.
///
/// Construct with [`GhostValue::new`] once you have established that
/// `value` satisfies `P`.
pub struct GhostValue<P, T> {
    _pred: PhantomData<P>,
    value: T,
}

impl<P, T> View for GhostValue<P, T> {
    type V = T;

    closed spec fn view(&self) -> T {
        self.value
    }
}

impl<P, T> GhostValue<P, T> {
    /// Wrap `value` as satisfying predicate `P`. The caller vouches that
    /// `value` satisfies `P`.
    pub fn new(value: T) -> (r: Self)
        ensures
            r@ == value,
    {
        GhostValue { _pred: PhantomData, value }
    }

    /// Recover the inner value, discarding the predicate.
    pub fn into_inner(self) -> (r: T)
        ensures
            r == self@,
    {
        self.value
    }

    /// Borrow the inner value.
    pub fn as_ref(&self) -> (r: &T)
        ensures
            *r == self@,
    {
        &self.value
    }

    /// Map the inner value, keeping the predicate `P`. The caller vouches
    /// that the transformed value still satisfies `P`.
    pub fn map<U, F: FnOnce(T) -> U>(self, f: F) -> (r: GhostValue<P, U>)
        requires
            call_requires(f, (self@,)),
        ensures
            call_ensures(f, (self@,), r@),
    {
        GhostValue { _pred: PhantomData, value: f(self.value) }
    }
}

impl<P, T: Clone> Clone for GhostValue<P, T> {
    fn clone(&self) -> (r: Self)
        ensures
            cloned(self@, r@),
    {
        GhostValue { _pred: PhantomData, value: self.value.clone() }
    }
}

impl<P, T: Copy> Copy for GhostValue<P, T> {
}

} // verus!
