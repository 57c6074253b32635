//! Type-level safety encoding toolkit.
//!
//! - [`phantom`] — a covariant phantom marker and the sealed-trait pattern.
//! - [`ghost`] — typestate tokens and values that carry a logical state or
//!   predicate in the type system.
//! - [`newtype`] — the conversion surface of newtype wrappers.
//! - [`bounded`] — range-checked values, both runtime-checked and
//!   type-level named bounds.
//! - [`safe_cast`] — infallible widening casts and fallible narrowing casts
//!   that fail instead of truncating.
pub mod bounded;
pub mod ghost;
pub mod newtype;
pub mod phantom;
pub mod safe_cast;
