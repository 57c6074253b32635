//! Verified building blocks for testing, proving and monitoring programs:
//! a SAT solver core, a small SMT layer, abstract interpretation, symbolic
//! execution, model checking, runtime monitoring, redundancy voting,
//! deterministic randomised testing and simulation, proof trees, refinement
//! and typestate wrappers, and fixed-buffer tracing.
use vstd::prelude::*;
use vstd::std_specs::cmp::PartialEqSpec;

pub mod sat;
pub mod smt_lite;
pub mod bool_abstract;
pub mod runtime_verify;
pub mod abstract_interp;
pub mod symbolic_exec;
pub mod model_check;
pub mod redundancy;
pub mod det_proptest;
pub mod deterministic_sim;
pub mod proof_ast;
pub mod trace_macros;
pub mod contract;
pub mod refinement;
pub mod typestate;
pub mod assert_const;

verus! {

/// `==` on `T` is the identity of values: its `eq` follows its spec, and
/// the spec is equality.
pub open spec fn structural_eq<T: PartialEq>() -> bool {
    &&& <T as PartialEqSpec>::obeys_eq_spec()
    &&& forall|a: T, b: T| #[trigger] a.eq_spec(&b) <==> a == b
}

} // verus!
