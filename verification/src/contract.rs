//! Design-by-contract primitives.
//!
//! A failed check is described by a [`ContractError`]: the kind of contract
//! (precondition, postcondition, invariant, loop-invariant), the source text
//! of the failing condition, and its location. Values that carry a checkable
//! invariant implement [`Invariant`].
use vstd::prelude::*;
use crate::smt_lite::{decimal, digits_string};

verus! {

/// A failed contract check.
///
/// Carries the *kind* of contract (precondition, postcondition, invariant,
/// loop-invariant), the source text of the failing condition, and its
/// location.
#[derive(Clone, Copy, PartialEq, Eq, Debug)]
pub struct ContractError {
    /// Which contract facet failed.
    pub kind: &'static str,
    /// Source text of the failing condition (may include a trailing message).
    pub expr: &'static str,
    /// Source file of the failure.
    pub file: &'static str,
    /// Source line of the failure.
    pub line: u32,
}

impl ContractError {
    /// The report text: `"<kind> violated at <file>:<line>: <expr>"`.
    pub open spec fn spec_message(&self) -> Seq<char> {
        self.kind@ + " violated at "@ + self.file@ + ":"@ + decimal(self.line as int) + ": "@ + self.expr@
    }

    /// Render the report text.
    pub fn message(&self) -> (r: String)
        ensures
            r@ == self.spec_message(),
    {
        let mut s = self.kind.to_owned();
        s.append(" violated at ");
        s.append(self.file);
        s.append(":");
        let n = digits_string(self.line as u64);
        s.append(n.as_str());
        s.append(": ");
        s.append(self.expr);
        s
    }
}

/// A value that carries a checkable invariant.
///
/// Implement this for a type to declare the condition that must hold for every
/// valid instance; `inv` states it and `check` decides it.
pub trait Invariant {
    /// The invariant.
    spec fn inv(&self) -> bool;

    /// Return `true` if this value satisfies its invariant.
    fn check(&self) -> (r: bool)
        ensures
            r == self.inv(),
    ;
}

} // verus!
