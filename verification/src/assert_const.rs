//! Type-level assertions.
//!
//! The [`Const`]/[`IsTrue`]/[`Same`] machinery lets a trait bound *require*
//! a boolean or a type equality to hold at compile time.
use vstd::prelude::*;

verus! {

/// A compile-time boolean carried at the type level.
pub struct Const<const N: bool>;

/// Type-level "this boolean is `true`".
///
/// Implemented only for [`Const`]`<true>`, so a bound `Const<B>: IsTrue`
/// forces `B` to be `true` at compile time.
pub trait IsTrue {
    /// The boolean value (always `true` for implementors).
    const VALUE: bool;
}

impl IsTrue for Const<true> {
    const VALUE: bool = true;
}

/// Type equality used as a compile-time assertion.
///
/// `Same` is implemented for every `T` with `Output = T`, so a bound
/// `T: Same<Output = U>` requires `T` and `U` to be the same type.
pub trait Same {
    /// The type this resolves to (always `Self`).
    type Output;
}

impl<T> Same for T {
    type Output = T;
}

} // verus!
