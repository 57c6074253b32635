# tpt_formal

Formal-verification and design-by-contract building blocks, written in Verus
and proved correct against their contracts.

## Layout

- `src/` — the verified library, one module per component:
  - `sat` — CNF formulas and the CDCL search core (watched literals, first-UIP
    learning, backjumping, restarts); every stored clause is implied by the
    formula, `Unsat` answers are sound and `Sat` models satisfy the formula.
  - `smt_lite`, `bool_abstract` — typed terms, SMT-LIB 2 text, a ground
    evaluator and a Tseitin boolean abstraction decided by the SAT core.
  - `abstract_interp` — the interval domain, its lattice laws and a fixpoint
    analysis whose result over-approximates every concrete run.
  - `symbolic_exec` — path exploration over symbolic integers, reporting
    division by zero and broken assertions.
  - `model_check` — breadth-first safety checking with shortest
    counterexamples.
  - `runtime_verify` — a three-valued temporal-logic monitor over traces.
  - `redundancy`, `det_proptest`, `deterministic_sim`, `proof_ast`,
    `trace_macros`, `contract`, `refinement`, `typestate`, `assert_const`.
- `tests/` — executable tests of the library.
- `app/` — plain Rust around the library: the SAT solver's floating-point
  branching scores, the contract and tracing macros, the global tracer, the
  panicking property check and the function-pointer phantom markers.
