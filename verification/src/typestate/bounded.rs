//! Range-checked values.
//!
//! Two flavours are provided:
//!
//! - [`Bounded`] — runtime-checked bounds attached to a value.
//! - [`Checked`] — type-level named bounds via the [`Bound`] trait, so a
//!   value's valid range is part of its type.
//!
//! Comparisons go through the value type's `PartialOrd`, whose order is
//! described by its `partial_cmp_spec` ([`ord_le`], [`ord_lt`]).
use vstd::prelude::*;
use vstd::std_specs::cmp::PartialOrdSpec;
use core::cmp::Ordering;

verus! {

/// `a <= b` in the order of `T`.
pub open spec fn ord_le<T: PartialOrd>(a: T, b: T) -> bool {
    a.partial_cmp_spec(&b) == Some(Ordering::Less) || a.partial_cmp_spec(&b) == Some(Ordering::Equal)
}

/// `a < b` in the order of `T`.
pub open spec fn ord_lt<T: PartialOrd>(a: T, b: T) -> bool {
    a.partial_cmp_spec(&b) == Some(Ordering::Less)
}

/// `a >= b` in the order of `T`.
pub open spec fn ord_ge<T: PartialOrd>(a: T, b: T) -> bool {
    a.partial_cmp_spec(&b) == Some(Ordering::Greater) || a.partial_cmp_spec(&b) == Some(
        Ordering::Equal,
    )
}

/// `a > b` in the order of `T`.
pub open spec fn ord_gt<T: PartialOrd>(a: T, b: T) -> bool {
    a.partial_cmp_spec(&b) == Some(Ordering::Greater)
}

/// `value` lies in `[min, max]`, and `min <= max`.
pub open spec fn in_range<T: PartialOrd>(value: T, min: T, max: T) -> bool {
    ord_le(min, max) && ord_ge(value, min) && ord_le(value, max)
}

/// Runtime range-checked value.
///
/// Holds `value` together with inclusive bounds `min`/`max`. Construction
/// rejects out-of-range values rather than truncating them.
#[derive(Clone, Copy, PartialEq, Eq, PartialOrd, Ord, Hash, Debug)]
pub struct Bounded<T> {
    value: T,
    min: T,
    max: T,
}

impl<T> View for Bounded<T> {
    type V = (T, T, T);

    closed spec fn view(&self) -> (T, T, T) {
        (self.value, self.min, self.max)
    }
}

impl<T: Copy + PartialOrd> Bounded<T> {
    /// Construct a bounded value, returning `None` if `value` is outside
    /// `[min, max]` (or if `min > max`).
    pub fn new(value: T, min: T, max: T) -> (r: Option<Self>)
        requires
            T::obeys_partial_cmp_spec(),
        ensures
            r is Some <==> in_range(value, min, max),
            r matches Some(b) ==> b@ == (value, min, max),
    {
        if min <= max && value >= min && value <= max {
            Some(Bounded { value, min, max })
        } else {
            None
        }
    }

    /// Construct without checking at run time: the caller proves the range.
    /// Prefer [`Bounded::new`] unless the bound has already been validated
    /// by other means.
    pub fn new_unchecked(value: T, min: T, max: T) -> (r: Self)
        requires
            in_range(value, min, max),
        ensures
            r@ == (value, min, max),
    {
        Bounded { value, min, max }
    }

    /// The contained value.
    pub fn get(&self) -> (r: T)
        ensures
            r == self@.0,
    {
        self.value
    }

    /// The inclusive lower bound.
    pub fn min(&self) -> (r: T)
        ensures
            r == self@.1,
    {
        self.min
    }

    /// The inclusive upper bound.
    pub fn max(&self) -> (r: T)
        ensures
            r == self@.2,
    {
        self.max
    }

    /// Clamp `value` into the same range and return a new bounded value:
    /// the lower bound if `value` is below it, the upper bound if above it,
    /// else `value`.
    pub fn clamp(&self, value: T) -> (r: Self)
        requires
            T::obeys_partial_cmp_spec(),
        ensures
            r@.1 == self@.1,
            r@.2 == self@.2,
            r@.0 == if ord_lt(value, self@.1) {
                self@.1
            } else if ord_gt(value, self@.2) {
                self@.2
            } else {
                value
            },
    {
        let v = if value < self.min {
            self.min
        } else if value > self.max {
            self.max
        } else {
            value
        };
        Bounded { value: v, min: self.min, max: self.max }
    }
}

/// A named, type-level bound for [`Checked`].
///
/// Implement this to give a type `B` a compile-time-associated valid range.
pub trait Bound: Copy + PartialOrd {
    /// Inclusive lower bound.
    const MIN: Self;
    /// Inclusive upper bound.
    const MAX: Self;
}

/// A value of a [`Bound`] type, guaranteed in range.
#[derive(Clone, Copy, PartialEq, Eq, PartialOrd, Ord, Hash, Debug)]
pub struct Checked<B: Bound> {
    value: B,
}

impl<B: Bound> View for Checked<B> {
    type V = B;

    closed spec fn view(&self) -> B {
        self.value
    }
}

impl<B: Bound> Checked<B> {
    /// Construct, returning `None` if `value` is outside `[B::MIN, B::MAX]`.
    pub fn new(value: B) -> (r: Option<Self>)
        requires
            B::obeys_partial_cmp_spec(),
        ensures
            r is Some <==> (ord_ge(value, B::MIN) && ord_le(value, B::MAX)),
            r matches Some(c) ==> c@ == value,
    {
        if value >= B::MIN && value <= B::MAX {
            Some(Checked { value })
        } else {
            None
        }
    }

    /// Construct without checking at run time: the caller proves the range.
    /// Prefer [`Checked::new`].
    pub fn new_unchecked(value: B) -> (r: Self)
        requires
            ord_ge(value, B::MIN) && ord_le(value, B::MAX),
        ensures
            r@ == value,
    {
        Checked { value }
    }

    /// The contained value.
    pub fn get(&self) -> (r: B)
        ensures
            r == self@,
    {
        self.value
    }
}

} // verus!
