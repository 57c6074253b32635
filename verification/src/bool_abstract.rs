//! Sound, one-directional boolean-abstraction decision tier.
//!
//! When the ground evaluator cannot decide a problem (free variables
//! remain), the *boolean structure* of the asserted formulas is
//! Tseitin-encoded into CNF, each distinct non-connective leaf (a `Bool`
//! constant aside) standing for an opaque propositional variable matched by
//! structural equality.  The CNF is decided by [`crate::sat`].
//!
//! Soundness: every model of the assertions induces a satisfying assignment
//! of the abstraction ([`lemma_abstraction_sound`]), so an unsatisfiable
//! abstraction proves the assertions unsatisfiable.  The tier therefore only
//! ever upgrades `Unknown` to `Unsat`.
use vstd::prelude::*;
use crate::sat::{Cnf, Solver, SatResult as CdclResult, lit_of_dimacs, lit_true, clause_sat, dimacs_var, lemma_lit_of_dimacs, dimacs_rejected, some_rejected};
use crate::sat::solver::lemma_satisfiable_cnf;
use crate::smt_lite::{Problem, SatResult, Term, Value, eval_term, same_term, term_eq, is_bool_val, lemma_same_term_eval};

verus! {

/// The encoder's state: the atoms met so far with their variables, the
/// DIMACS clauses emitted, the next fresh variable, and the sub-term that
/// each variable stands for.
#[verifier::ext_equal]
pub struct EncState {
    pub atoms: Seq<(Term, nat)>,
    pub clauses: Seq<Seq<int>>,
    pub next: nat,
    pub defs: Seq<Term>,
}

/// The initial encoder state.
pub open spec fn empty_state() -> EncState {
    EncState { atoms: Seq::empty(), clauses: Seq::empty(), next: 0, defs: Seq::empty() }
}

/// The positive DIMACS literal of a 0-based variable.
pub open spec fn dlit(v: nat) -> int {
    v as int + 1
}

/// Allocate the next variable for the sub-term `t`.
pub open spec fn fresh_state(s: EncState, t: Term) -> EncState {
    EncState { atoms: s.atoms, clauses: s.clauses, next: s.next + 1, defs: s.defs.push(t) }
}

/// Emit one clause.
pub open spec fn add_clause(s: EncState, c: Seq<int>) -> EncState {
    EncState { atoms: s.atoms, clauses: s.clauses.push(c), next: s.next, defs: s.defs }
}

/// The variable of the first atom structurally equal to `t`, if any.
pub open spec fn lookup_atom(atoms: Seq<(Term, nat)>, t: Term) -> Option<nat>
    decreases atoms.len(),
{
    if atoms.len() == 0 {
        None
    } else if same_term(atoms[0].0, t) {
        Some(atoms[0].1)
    } else {
        lookup_atom(atoms.drop_first(), t)
    }
}

/// Tseitin encoding of `t` from state `s`: the variable standing for `t`
/// and the state after encoding.  Connectives (`and`, `or`, `not`,
/// implication) get a fresh variable defined by the clauses making it
/// equivalent to the connective of its operands' variables; boolean
/// constants get a fresh variable fixed by a unit clause; any other term is
/// an atom, sharing one variable among structurally equal occurrences.
pub open spec fn tseitin(t: Term, s: EncState) -> (nat, EncState)
    decreases t,
{
    match t {
        Term::Bool(b) => {
            let v = s.next;
            (v, add_clause(fresh_state(s, t), seq![if b { dlit(v) } else { -dlit(v) }]))
        },
        Term::And(a, b) => {
            let (va, s1) = tseitin(*a, s);
            let (vb, s2) = tseitin(*b, s1);
            let v = s2.next;
            let s3 = fresh_state(s2, t);
            let s4 = add_clause(s3, seq![-dlit(v), dlit(va)]);
            let s5 = add_clause(s4, seq![-dlit(v), dlit(vb)]);
            (v, add_clause(s5, seq![-dlit(va), -dlit(vb), dlit(v)]))
        },
        Term::Or(a, b) => {
            let (va, s1) = tseitin(*a, s);
            let (vb, s2) = tseitin(*b, s1);
            let v = s2.next;
            let s3 = fresh_state(s2, t);
            let s4 = add_clause(s3, seq![-dlit(v), dlit(va), dlit(vb)]);
            let s5 = add_clause(s4, seq![-dlit(va), dlit(v)]);
            (v, add_clause(s5, seq![-dlit(vb), dlit(v)]))
        },
        Term::Not(a) => {
            let (va, s1) = tseitin(*a, s);
            let v = s1.next;
            let s2 = fresh_state(s1, t);
            let s3 = add_clause(s2, seq![-dlit(v), -dlit(va)]);
            (v, add_clause(s3, seq![dlit(va), dlit(v)]))
        },
        Term::Implies(a, b) => {
            let (va, s1) = tseitin(*a, s);
            let (vb, s2) = tseitin(*b, s1);
            let v = s2.next;
            let s3 = fresh_state(s2, t);
            let s4 = add_clause(s3, seq![-dlit(v), -dlit(va), dlit(vb)]);
            let s5 = add_clause(s4, seq![dlit(va), dlit(v)]);
            (v, add_clause(s5, seq![-dlit(vb), dlit(v)]))
        },
        _ => match lookup_atom(s.atoms, t) {
            Some(v) => (v, s),
            None => {
                let v = s.next;
                let s1 = fresh_state(s, t);
                (v, EncState { atoms: s1.atoms.push((t, v)), clauses: s1.clauses, next: s1.next, defs: s1.defs })
            },
        },
    }
}

/// Encode every assertion in turn, forcing each one's variable true with a
/// unit clause.
pub open spec fn encode_all(ts: Seq<Term>, s: EncState) -> EncState
    decreases ts.len(),
{
    if ts.len() == 0 {
        s
    } else {
        let (v, s1) = tseitin(ts[0], s);
        encode_all(ts.drop_first(), add_clause(s1, seq![dlit(v)]))
    }
}

/// The boolean abstraction of a list of assertions.
pub open spec fn abstraction(ts: Seq<Term>) -> EncState {
    encode_all(ts, empty_state())
}

/// A DIMACS literal is true under an assignment of the variables.
pub open spec fn dlit_true(x: int, a: Seq<bool>) -> bool {
    if x > 0 {
        a[x - 1]
    } else {
        !a[-x - 1]
    }
}

/// Some literal of a DIMACS clause is true under the assignment.
pub open spec fn dclause_true(c: Seq<int>, a: Seq<bool>) -> bool {
    exists|k: int| 0 <= k < c.len() && dlit_true(#[trigger] c[k], a)
}

/// Some assignment of `n` variables satisfies every DIMACS clause.
pub open spec fn dimacs_satisfiable(n: nat, cls: Seq<Seq<int>>) -> bool {
    exists|a: Seq<bool>|
        a.len() == n && forall|i: int|
            0 <= i < cls.len() ==> dclause_true(#[trigger] cls[i], a)
}

/// The verdict of the abstraction tier: `Unsat` exactly when the abstraction
/// of a non-empty list of assertions is unsatisfiable.
pub open spec fn spec_decide(ts: Seq<Term>) -> SatResult {
    if ts.len() == 0 {
        SatResult::Unknown
    } else if dimacs_satisfiable(abstraction(ts).next, abstraction(ts).clauses) {
        SatResult::Unknown
    } else {
        SatResult::Unsat
    }
}

/// Every literal of every clause names a variable below `next`, each
/// variable has its defining sub-term, and each atom's variable is below
/// `next`.
pub open spec fn state_wf(s: EncState) -> bool {
    &&& s.defs.len() == s.next
    &&& forall|i: int| 0 <= i < s.atoms.len() ==> (#[trigger] s.atoms[i]).1 < s.next
    &&& forall|i: int, k: int| 0 <= i < s.clauses.len() && 0 <= k < s.clauses[i].len()
        ==> 1 <= #[trigger] s.clauses[i][k] <= s.next || -(s.next as int) <= s.clauses[i][k] <= -1
}

/// `s2` extends `s1`: atoms, clauses and definitions are only appended to.
pub open spec fn extends(s1: EncState, s2: EncState) -> bool {
    &&& s1.next <= s2.next
    &&& s1.atoms.len() <= s2.atoms.len()
    &&& s2.atoms.subrange(0, s1.atoms.len() as int) == s1.atoms
    &&& s1.clauses.len() <= s2.clauses.len()
    &&& s2.clauses.subrange(0, s1.clauses.len() as int) == s1.clauses
    &&& s1.defs.len() <= s2.defs.len()
    &&& s2.defs.subrange(0, s1.defs.len() as int) == s1.defs
}

proof fn lemma_extends_trans(a: EncState, b: EncState, c: EncState)
    requires
        extends(a, b),
        extends(b, c),
    ensures
        extends(a, c),
{
    assert(c.atoms.subrange(0, a.atoms.len() as int) == c.atoms.subrange(0, b.atoms.len() as int).subrange(0, a.atoms.len() as int));
    assert(c.clauses.subrange(0, a.clauses.len() as int) == c.clauses.subrange(0, b.clauses.len() as int).subrange(0, a.clauses.len() as int));
    assert(c.defs.subrange(0, a.defs.len() as int) == c.defs.subrange(0, b.defs.len() as int).subrange(0, a.defs.len() as int));
}

proof fn lemma_extends_refl(s: EncState)
    ensures
        extends(s, s),
{
    assert(s.atoms.subrange(0, s.atoms.len() as int) == s.atoms);
    assert(s.clauses.subrange(0, s.clauses.len() as int) == s.clauses);
    assert(s.defs.subrange(0, s.defs.len() as int) == s.defs);
}



/// The state after the fresh variable and the clauses that the
/// connective case of [`tseitin`] emits after encoding the operands.
proof fn lemma_tail_wf(s2: EncState, t: Term, r: EncState, n: nat)
    requires
        state_wf(s2),
        r.atoms == s2.atoms,
        r.next == s2.next + 1,
        r.defs == s2.defs.push(t),
        r.clauses.len() == s2.clauses.len() + n,
        r.clauses.subrange(0, s2.clauses.len() as int) == s2.clauses,
        forall|i: int, k: int| s2.clauses.len() <= i < r.clauses.len() && 0 <= k < r.clauses[i].len()
            ==> 1 <= #[trigger] r.clauses[i][k] <= r.next || -(r.next as int) <= r.clauses[i][k] <= -1,
    ensures
        state_wf(r),
        extends(s2, r),
{
    assert(r.defs.subrange(0, s2.defs.len() as int) == s2.defs);
    assert(r.atoms.subrange(0, s2.atoms.len() as int) == s2.atoms);
    assert forall|i: int, k: int| 0 <= i < r.clauses.len() && 0 <= k < r.clauses[i].len()
        implies 1 <= #[trigger] r.clauses[i][k] <= r.next || -(r.next as int) <= r.clauses[i][k] <= -1 by {
        if i < s2.clauses.len() {
            assert(r.clauses[i] == r.clauses.subrange(0, s2.clauses.len() as int)[i]);
        }
    }
}

proof fn lemma_lookup_atom(atoms: Seq<(Term, nat)>, t: Term)
    ensures
        lookup_atom(atoms, t) matches Some(v) ==> exists|i: int| 0 <= i < atoms.len() && (#[trigger] atoms[i]).1 == v && same_term(atoms[i].0, t),
    decreases atoms.len(),
{
    if atoms.len() > 0 && !same_term(atoms[0].0, t) {
        lemma_lookup_atom(atoms.drop_first(), t);
        if lookup_atom(atoms, t) is Some {
            let i = choose|i: int| 0 <= i < atoms.drop_first().len() && (#[trigger] atoms.drop_first()[i]).1 == lookup_atom(atoms, t)->0 && same_term(atoms.drop_first()[i].0, t);
            assert(atoms[i + 1] == atoms.drop_first()[i]);
        }
    } else if atoms.len() > 0 {
        assert(atoms[0].1 == atoms[0].1);
    }
}

/// Encoding only appends, keeps the state well formed, and returns a
/// variable below the new `next`.
proof fn lemma_tseitin_wf(t: Term, s: EncState)
    requires
        state_wf(s),
    ensures
        state_wf(tseitin(t, s).1),
        extends(s, tseitin(t, s).1),
        tseitin(t, s).0 < tseitin(t, s).1.next,
    decreases t,
{
    match t {
        Term::And(a, b) | Term::Or(a, b) | Term::Implies(a, b) => {
            lemma_tseitin_wf(*a, s);
            let (va, s1) = tseitin(*a, s);
            lemma_tseitin_wf(*b, s1);
            let (vb, s2) = tseitin(*b, s1);
            let r = tseitin(t, s).1;
            assert(r.clauses.subrange(0, s2.clauses.len() as int) == s2.clauses);
            lemma_tail_wf(s2, t, r, 3);
            lemma_extends_trans(s, s1, s2);
            lemma_extends_trans(s, s2, r);
        },
        Term::Not(a) => {
            lemma_tseitin_wf(*a, s);
            let (va, s1) = tseitin(*a, s);
            let r = tseitin(t, s).1;
            assert(r.clauses.subrange(0, s1.clauses.len() as int) == s1.clauses);
            lemma_tail_wf(s1, t, r, 2);
            lemma_extends_trans(s, s1, r);
        },
        Term::Bool(b) => {
            let r = tseitin(t, s).1;
            assert(r.clauses.subrange(0, s.clauses.len() as int) == s.clauses);
            lemma_tail_wf(s, t, r, 1);
        },
        _ => {
            lemma_lookup_atom(s.atoms, t);
            let r = tseitin(t, s).1;
            if lookup_atom(s.atoms, t) is None {
                assert(r.clauses.subrange(0, s.clauses.len() as int) == s.clauses);
                assert(r.defs.subrange(0, s.defs.len() as int) == s.defs);
                assert(r.atoms.subrange(0, s.atoms.len() as int) == s.atoms);
            } else {
                lemma_extends_refl(s);
            }
        },
    }
}

/// The truth value of the boolean structure of `t` under the assignment
/// `a` of the encoding's variables, reading each atom as its variable in
/// `atoms` (and an atom without one as false).
pub open spec fn prop_value(t: Term, atoms: Seq<(Term, nat)>, a: Seq<bool>) -> bool
    decreases t,
{
    match t {
        Term::Bool(b) => b,
        Term::And(x, y) => prop_value(*x, atoms, a) && prop_value(*y, atoms, a),
        Term::Or(x, y) => prop_value(*x, atoms, a) || prop_value(*y, atoms, a),
        Term::Not(x) => !prop_value(*x, atoms, a),
        Term::Implies(x, y) => !prop_value(*x, atoms, a) || prop_value(*y, atoms, a),
        _ => match lookup_atom(atoms, t) {
            Some(v) => a[v as int],
            None => false,
        },
    }
}

/// Every atom of the boolean structure of `t` has a variable in `atoms`.
pub open spec fn atoms_known(t: Term, atoms: Seq<(Term, nat)>) -> bool
    decreases t,
{
    match t {
        Term::Bool(_) => true,
        Term::And(x, y) | Term::Or(x, y) | Term::Implies(x, y) => atoms_known(*x, atoms) && atoms_known(*y, atoms),
        Term::Not(x) => atoms_known(*x, atoms),
        _ => lookup_atom(atoms, t) is Some,
    }
}

proof fn lemma_lookup_prefix(a1: Seq<(Term, nat)>, a2: Seq<(Term, nat)>, t: Term)
    requires
        a1.len() <= a2.len(),
        a2.subrange(0, a1.len() as int) == a1,
        lookup_atom(a1, t) is Some,
    ensures
        lookup_atom(a2, t) == lookup_atom(a1, t),
    decreases a1.len(),
{
    assert(a2[0] == a2.subrange(0, a1.len() as int)[0]);
    if !same_term(a1[0].0, t) {
        assert(a2.drop_first().subrange(0, a1.drop_first().len() as int) =~= a1.drop_first());
        lemma_lookup_prefix(a1.drop_first(), a2.drop_first(), t);
    }
}

proof fn lemma_lookup_push(a: Seq<(Term, nat)>, t: Term, v: nat)
    requires
        lookup_atom(a, t) is None,
    ensures
        lookup_atom(a.push((t, v)), t) == Some(v),
    decreases a.len(),
{
    if a.len() == 0 {
        lemma_same_term_refl(t);
    } else {
        assert(a.push((t, v)).drop_first() =~= a.drop_first().push((t, v)));
        lemma_lookup_push(a.drop_first(), t, v);
    }
}

/// Reading atoms in a longer list that starts with `a1` changes nothing for
/// a term whose atoms `a1` already knows.
proof fn lemma_prop_value_prefix(t: Term, a1: Seq<(Term, nat)>, a2: Seq<(Term, nat)>, a: Seq<bool>)
    requires
        atoms_known(t, a1),
        a1.len() <= a2.len(),
        a2.subrange(0, a1.len() as int) == a1,
    ensures
        atoms_known(t, a2),
        prop_value(t, a2, a) == prop_value(t, a1, a),
    decreases t,
{
    match t {
        Term::Bool(_) => {},
        Term::And(x, y) | Term::Or(x, y) | Term::Implies(x, y) => {
            lemma_prop_value_prefix(*x, a1, a2, a);
            lemma_prop_value_prefix(*y, a1, a2, a);
        },
        Term::Not(x) => {
            lemma_prop_value_prefix(*x, a1, a2, a);
        },
        _ => {
            lemma_lookup_prefix(a1, a2, t);
        },
    }
}

/// `a` satisfies the clauses of `r` from index `from` on.
pub open spec fn sat_from(r: EncState, from: int, a: Seq<bool>) -> bool {
    forall|i: int| from <= i < r.clauses.len() ==> dclause_true(#[trigger] r.clauses[i], a)
}

/// The Tseitin encoding is faithful: under every assignment that satisfies
/// the clauses one call adds, the variable it returns is true exactly when
/// the boolean structure of the term holds with each atom read as its
/// variable; and every atom of that structure has its variable.
#[verifier::spinoff_prover]
#[verifier::rlimit(100)]
pub proof fn lemma_tseitin_equiv(t: Term, s: EncState, a: Seq<bool>)
    requires
        state_wf(s),
        sat_from(tseitin(t, s).1, s.clauses.len() as int, a),
    ensures
        atoms_known(t, tseitin(t, s).1.atoms),
        a[tseitin(t, s).0 as int] == prop_value(t, tseitin(t, s).1.atoms, a),
    decreases t,
{
    lemma_tseitin_wf(t, s);
    let (v, r) = tseitin(t, s);
    match t {
        Term::Bool(b) => {
            let c = r.clauses[s.clauses.len() as int];
            assert(dclause_true(c, a));
            assert(dlit_true(c[0], a));
        },
        Term::And(x, y) | Term::Or(x, y) | Term::Implies(x, y) => {
            lemma_tseitin_wf(*x, s);
            let (vx, s1) = tseitin(*x, s);
            lemma_tseitin_wf(*y, s1);
            let (vy, s2) = tseitin(*y, s1);
            assert(r.clauses.subrange(0, s2.clauses.len() as int) == s2.clauses);
            lemma_tail_wf(s2, t, r, 3);
            lemma_extends_trans(s1, s2, r);
            assert forall|i: int| s.clauses.len() <= i < s1.clauses.len() implies dclause_true(#[trigger] s1.clauses[i], a) by {
                assert(s1.clauses[i] == r.clauses.subrange(0, s1.clauses.len() as int)[i]);
                assert(r.clauses[i] == s1.clauses[i]);
            }
            assert forall|i: int| s1.clauses.len() <= i < s2.clauses.len() implies dclause_true(#[trigger] s2.clauses[i], a) by {
                assert(s2.clauses[i] == r.clauses.subrange(0, s2.clauses.len() as int)[i]);
                assert(r.clauses[i] == s2.clauses[i]);
            }
            lemma_tseitin_equiv(*x, s, a);
            lemma_tseitin_equiv(*y, s1, a);
            lemma_prop_value_prefix(*x, s1.atoms, r.atoms, a);
            lemma_prop_value_prefix(*y, s2.atoms, r.atoms, a);
            let n = s2.clauses.len() as int;
            let c0 = r.clauses[n];
            let c1 = r.clauses[n + 1];
            let c2 = r.clauses[n + 2];
            assert(dclause_true(c0, a));
            assert(dclause_true(c1, a));
            assert(dclause_true(c2, a));
            let k0 = choose|k: int| 0 <= k < c0.len() && dlit_true(#[trigger] c0[k], a);
            let k1 = choose|k: int| 0 <= k < c1.len() && dlit_true(#[trigger] c1[k], a);
            let k2 = choose|k: int| 0 <= k < c2.len() && dlit_true(#[trigger] c2[k], a);
        },
        Term::Not(x) => {
            lemma_tseitin_wf(*x, s);
            let (vx, s1) = tseitin(*x, s);
            assert(r.clauses.subrange(0, s1.clauses.len() as int) == s1.clauses);
            lemma_tail_wf(s1, t, r, 2);
            assert forall|i: int| s.clauses.len() <= i < s1.clauses.len() implies dclause_true(#[trigger] s1.clauses[i], a) by {
                assert(s1.clauses[i] == r.clauses.subrange(0, s1.clauses.len() as int)[i]);
                assert(r.clauses[i] == s1.clauses[i]);
            }
            lemma_tseitin_equiv(*x, s, a);
            lemma_prop_value_prefix(*x, s1.atoms, r.atoms, a);
            let n = s1.clauses.len() as int;
            let c0 = r.clauses[n];
            let c1 = r.clauses[n + 1];
            assert(dclause_true(c0, a));
            assert(dclause_true(c1, a));
            let k0 = choose|k: int| 0 <= k < c0.len() && dlit_true(#[trigger] c0[k], a);
            let k1 = choose|k: int| 0 <= k < c1.len() && dlit_true(#[trigger] c1[k], a);
        },
        _ => {
            if lookup_atom(s.atoms, t) is None {
                lemma_lookup_push(s.atoms, t, s.next);
            }
        },
    }
}

proof fn lemma_encode_all_wf(ts: Seq<Term>, s: EncState)
    requires
        state_wf(s),
    ensures
        state_wf(encode_all(ts, s)),
        encode_all(ts, s).next >= s.next,
    decreases ts.len(),
{
    if ts.len() > 0 {
        lemma_tseitin_wf(ts[0], s);
        let (v, s1) = tseitin(ts[0], s);
        lemma_encode_all_wf(ts.drop_first(), add_clause(s1, seq![dlit(v)]));
    }
}

/// Every connective reached from `t` through connectives evaluates to a
/// boolean in `m`.
pub open spec fn bool_defined(t: Term, m: Map<Seq<char>, Value>) -> bool
    decreases t,
{
    match t {
        Term::And(a, b) | Term::Or(a, b) | Term::Implies(a, b) =>
            is_bool_val(eval_term(t, m)) && bool_defined(*a, m) && bool_defined(*b, m),
        Term::Not(a) => is_bool_val(eval_term(t, m)) && bool_defined(*a, m),
        _ => true,
    }
}

proof fn lemma_bool_defined(t: Term, m: Map<Seq<char>, Value>)
    requires
        is_bool_val(eval_term(t, m)),
    ensures
        bool_defined(t, m),
    decreases t,
{
    match t {
        Term::And(a, b) | Term::Or(a, b) | Term::Implies(a, b) => {
            lemma_bool_defined(*a, m);
            lemma_bool_defined(*b, m);
        },
        Term::Not(a) => lemma_bool_defined(*a, m),
        _ => {},
    }
}

/// The assignment a model induces: a variable is true when the sub-term it
/// stands for evaluates to `true`.
pub open spec fn induced(defs: Seq<Term>, m: Map<Seq<char>, Value>) -> Seq<bool> {
    Seq::new(defs.len(), |v: int| eval_term(defs[v], m) == Some(Value::Bool(true)))
}

/// Every clause of `s` holds under the assignment induced by `m`, and every
/// atom's variable stands for a term structurally equal to the atom.
pub open spec fn state_sound(s: EncState, m: Map<Seq<char>, Value>) -> bool {
    &&& state_wf(s)
    &&& forall|i: int| 0 <= i < s.atoms.len() ==> same_term(s.defs[(#[trigger] s.atoms[i]).1 as int], s.atoms[i].0)
    &&& forall|i: int| 0 <= i < s.clauses.len() ==> dclause_true(#[trigger] s.clauses[i], induced(s.defs, m))
}

proof fn lemma_extend_sound(s1: EncState, s2: EncState, m: Map<Seq<char>, Value>)
    requires
        state_sound(s1, m),
        state_wf(s2),
        extends(s1, s2),
    ensures
        forall|i: int| 0 <= i < s1.clauses.len() ==> dclause_true(#[trigger] s2.clauses[i], induced(s2.defs, m)),
        forall|i: int| 0 <= i < s1.atoms.len() ==> same_term(s2.defs[(#[trigger] s2.atoms[i]).1 as int], s2.atoms[i].0),
{
    assert forall|i: int| 0 <= i < s1.clauses.len() implies dclause_true(#[trigger] s2.clauses[i], induced(s2.defs, m)) by {
        assert(s2.clauses[i] == s2.clauses.subrange(0, s1.clauses.len() as int)[i]);
        let k = choose|k: int| 0 <= k < s1.clauses[i].len() && dlit_true(#[trigger] s1.clauses[i][k], induced(s1.defs, m));
        let x = s1.clauses[i][k];
        let v = if x > 0 { x - 1 } else { -x - 1 };
        assert(0 <= v < s1.next);
        assert(s2.defs[v] == s2.defs.subrange(0, s1.defs.len() as int)[v]);
        assert(induced(s2.defs, m)[v] == induced(s1.defs, m)[v]);
        assert(dlit_true(s2.clauses[i][k], induced(s2.defs, m)));
    }
    assert forall|i: int| 0 <= i < s1.atoms.len() implies same_term(s2.defs[(#[trigger] s2.atoms[i]).1 as int], s2.atoms[i].0) by {
        assert(s2.atoms[i] == s2.atoms.subrange(0, s1.atoms.len() as int)[i]);
        let v = s1.atoms[i].1 as int;
        assert(s2.defs[v] == s2.defs.subrange(0, s1.defs.len() as int)[v]);
    }
}

/// Encoding a sub-term whose connectives evaluate to booleans keeps every
/// clause true under the induced assignment, and the returned variable is
/// true exactly when the sub-term evaluates to `true`.
#[verifier::spinoff_prover]
#[verifier::rlimit(80)]
proof fn lemma_tseitin_sound(t: Term, s: EncState, m: Map<Seq<char>, Value>)
    requires
        state_sound(s, m),
        bool_defined(t, m),
    ensures
        state_sound(tseitin(t, s).1, m),
        induced(tseitin(t, s).1.defs, m)[tseitin(t, s).0 as int] == (eval_term(t, m) == Some(Value::Bool(true))),
    decreases t,
{
    lemma_tseitin_wf(t, s);
    let (v, r) = tseitin(t, s);
    lemma_extend_sound(s, r, m);
    match t {
        Term::And(a, b) | Term::Or(a, b) | Term::Implies(a, b) => {
            lemma_tseitin_sound(*a, s, m);
            lemma_tseitin_wf(*a, s);
            let (va, s1) = tseitin(*a, s);
            lemma_tseitin_wf(*b, s1);
            lemma_tseitin_sound(*b, s1, m);
            let (vb, s2) = tseitin(*b, s1);
            assert(r.clauses.subrange(0, s2.clauses.len() as int) == s2.clauses);
            lemma_tail_wf(s2, t, r, 3);
            lemma_extend_sound(s2, r, m);
            lemma_extend_sound(s1, s2, m);
            let sig = induced(r.defs, m);
            assert(r.defs[v as int] == t);
            assert(sig[va as int] == induced(s2.defs, m)[va as int]) by {
                assert(r.defs[va as int] == r.defs.subrange(0, s2.defs.len() as int)[va as int]);
                assert(s2.defs[va as int] == s2.defs.subrange(0, s1.defs.len() as int)[va as int]);
            }
            assert(sig[vb as int] == induced(s2.defs, m)[vb as int]) by {
                assert(r.defs[vb as int] == r.defs.subrange(0, s2.defs.len() as int)[vb as int]);
            }
            assert(induced(s2.defs, m)[va as int] == induced(s1.defs, m)[va as int]) by {
                assert(s2.defs[va as int] == s2.defs.subrange(0, s1.defs.len() as int)[va as int]);
            }
            let n = s2.clauses.len() as int;
            assert forall|i: int| 0 <= i < r.clauses.len() implies dclause_true(#[trigger] r.clauses[i], sig) by {
                if i >= n {
                    if i == n {
                        if sig[v as int] {
                            match t {
                                Term::Or(..) => {
                                    if sig[va as int] { assert(dlit_true(r.clauses[i][1], sig)); } else { assert(dlit_true(r.clauses[i][2], sig)); }
                                },
                                Term::Implies(..) => {
                                    if !sig[va as int] { assert(dlit_true(r.clauses[i][1], sig)); } else { assert(dlit_true(r.clauses[i][2], sig)); }
                                },
                                _ => { assert(dlit_true(r.clauses[i][1], sig)); },
                            }
                        } else {
                            assert(dlit_true(r.clauses[i][0], sig));
                        }
                    } else if i == n + 1 {
                        match t {
                            Term::And(..) => {
                                if sig[v as int] { assert(dlit_true(r.clauses[i][1], sig)); } else { assert(dlit_true(r.clauses[i][0], sig)); }
                            },
                            _ => {
                                if sig[v as int] { assert(dlit_true(r.clauses[i][1], sig)); } else { assert(dlit_true(r.clauses[i][0], sig)); }
                            },
                        }
                    } else {
                        match t {
                            Term::And(..) => {
                                if !sig[va as int] { assert(dlit_true(r.clauses[i][0], sig)); }
                                else if !sig[vb as int] { assert(dlit_true(r.clauses[i][1], sig)); }
                                else { assert(dlit_true(r.clauses[i][2], sig)); }
                            },
                            _ => {
                                if sig[v as int] { assert(dlit_true(r.clauses[i][1], sig)); } else { assert(dlit_true(r.clauses[i][0], sig)); }
                            },
                        }
                    }
                } else if i >= s1.clauses.len() {
                    assert(r.clauses[i] == r.clauses.subrange(0, n)[i]);
                } else {
                    assert(r.clauses[i] == r.clauses.subrange(0, n)[i]);
                    assert(s2.clauses[i] == s2.clauses.subrange(0, s1.clauses.len() as int)[i]);
                }
            }
            assert forall|i: int| 0 <= i < r.atoms.len() implies same_term(r.defs[(#[trigger] r.atoms[i]).1 as int], r.atoms[i].0) by {
                assert(r.atoms[i] == s2.atoms[i]);
            }
        },
        Term::Not(a) => {
            lemma_tseitin_sound(*a, s, m);
            lemma_tseitin_wf(*a, s);
            let (va, s1) = tseitin(*a, s);
            assert(r.clauses.subrange(0, s1.clauses.len() as int) == s1.clauses);
            lemma_tail_wf(s1, t, r, 2);
            lemma_extend_sound(s1, r, m);
            let sig = induced(r.defs, m);
            assert(r.defs[v as int] == t);
            assert(sig[va as int] == induced(s1.defs, m)[va as int]) by {
                assert(r.defs[va as int] == r.defs.subrange(0, s1.defs.len() as int)[va as int]);
            }
            let n = s1.clauses.len() as int;
            assert forall|i: int| 0 <= i < r.clauses.len() implies dclause_true(#[trigger] r.clauses[i], sig) by {
                if i == n {
                    if sig[v as int] { assert(dlit_true(r.clauses[i][1], sig)); } else { assert(dlit_true(r.clauses[i][0], sig)); }
                } else if i == n + 1 {
                    if sig[va as int] { assert(dlit_true(r.clauses[i][0], sig)); } else { assert(dlit_true(r.clauses[i][1], sig)); }
                } else {
                    assert(r.clauses[i] == r.clauses.subrange(0, n)[i]);
                }
            }
            assert forall|i: int| 0 <= i < r.atoms.len() implies same_term(r.defs[(#[trigger] r.atoms[i]).1 as int], r.atoms[i].0) by {
                assert(r.atoms[i] == s1.atoms[i]);
            }
        },
        Term::Bool(b) => {
            let sig = induced(r.defs, m);
            assert(r.defs[v as int] == t);
            let n = s.clauses.len() as int;
            assert forall|i: int| 0 <= i < r.clauses.len() implies dclause_true(#[trigger] r.clauses[i], sig) by {
                if i == n {
                    assert(dlit_true(r.clauses[i][0], sig));
                }
            }
            assert forall|i: int| 0 <= i < r.atoms.len() implies same_term(r.defs[(#[trigger] r.atoms[i]).1 as int], r.atoms[i].0) by {
                assert(r.atoms[i] == s.atoms[i]);
            }
        },
        _ => {
            lemma_lookup_atom(s.atoms, t);
            let sig = induced(r.defs, m);
            match lookup_atom(s.atoms, t) {
                Some(w) => {
                    let i = choose|i: int| 0 <= i < s.atoms.len() && (#[trigger] s.atoms[i]).1 == w && same_term(s.atoms[i].0, t);
                    lemma_same_term_eval(s.defs[w as int], s.atoms[i].0, m);
                    lemma_same_term_eval(s.atoms[i].0, t, m);
                },
                None => {
                    assert(r.defs[v as int] == t);
                    assert forall|i: int| 0 <= i < r.atoms.len() implies same_term(r.defs[(#[trigger] r.atoms[i]).1 as int], r.atoms[i].0) by {
                        if i == s.atoms.len() {
                            lemma_same_term_refl(t);
                        }
                    }
                },
            }
        },
    }
}

proof fn lemma_same_term_refl(t: Term)
    ensures
        same_term(t, t),
    decreases t,
{
    match t {
        Term::Not(x) | Term::Neg(x) => lemma_same_term_refl(*x),
        Term::And(a, b) | Term::Or(a, b) | Term::Implies(a, b) | Term::Eq(a, b) | Term::Add(a, b)
        | Term::Sub(a, b) | Term::Mul(a, b) | Term::Lt(a, b) | Term::Le(a, b) | Term::Gt(a, b)
        | Term::Ge(a, b) => {
            lemma_same_term_refl(*a);
            lemma_same_term_refl(*b);
        },
        Term::Ite(c, a, b) => {
            lemma_same_term_refl(*c);
            lemma_same_term_refl(*a);
            lemma_same_term_refl(*b);
        },
        _ => {},
    }
}

proof fn lemma_encode_all_sound(ts: Seq<Term>, s: EncState, m: Map<Seq<char>, Value>)
    requires
        state_sound(s, m),
        forall|i: int| 0 <= i < ts.len() ==> eval_term(#[trigger] ts[i], m) == Some(Value::Bool(true)),
    ensures
        state_sound(encode_all(ts, s), m),
    decreases ts.len(),
{
    if ts.len() > 0 {
        lemma_bool_defined(ts[0], m);
        lemma_tseitin_sound(ts[0], s, m);
        lemma_tseitin_wf(ts[0], s);
        let (v, s1) = tseitin(ts[0], s);
        let s2 = add_clause(s1, seq![dlit(v)]);
        assert(state_sound(s2, m)) by {
            assert forall|i: int| 0 <= i < s2.clauses.len() implies dclause_true(#[trigger] s2.clauses[i], induced(s2.defs, m)) by {
                if i == s1.clauses.len() {
                    assert(dlit_true(s2.clauses[i][0], induced(s2.defs, m)));
                } else {
                    assert(s2.clauses[i] == s1.clauses[i]);
                }
            }
        }
        assert forall|i: int| 0 <= i < ts.drop_first().len() implies eval_term(#[trigger] ts.drop_first()[i], m) == Some(Value::Bool(true)) by {
            assert(ts.drop_first()[i] == ts[i + 1]);
        }
        lemma_encode_all_sound(ts.drop_first(), s2, m);
    }
}

/// Soundness of the abstraction: every model under which all the
/// assertions evaluate to `true` induces a satisfying assignment of their
/// boolean abstraction.
pub proof fn lemma_abstraction_sound(ts: Seq<Term>, m: Map<Seq<char>, Value>)
    requires
        forall|i: int| 0 <= i < ts.len() ==> eval_term(#[trigger] ts[i], m) == Some(Value::Bool(true)),
    ensures
        dimacs_satisfiable(abstraction(ts).next, abstraction(ts).clauses),
{
    let s0 = empty_state();
    assert(state_sound(s0, m));
    lemma_encode_all_sound(ts, s0, m);
    let r = abstraction(ts);
    let a = induced(r.defs, m);
    assert(a.len() == r.next);
    assert forall|i: int| 0 <= i < r.clauses.len() implies dclause_true(#[trigger] r.clauses[i], a) by {}
}

/// The positive DIMACS literal of a 0-based variable.
fn lit(v: usize) -> (r: i32)
    requires
        v < i32::MAX,
    ensures
        r == dlit(v as nat),
{
    (v as i32) + 1
}

/// Tseitin encoder: assigns each sub-term a SAT variable and emits the
/// clauses that make it equivalent to the sub-term.
struct Encoder {
    atoms: Vec<(Term, usize)>,
    clauses: Vec<Vec<i32>>,
    next: usize,
    defs: Ghost<Seq<Term>>,
}

impl View for Encoder {
    type V = EncState;

    closed spec fn view(&self) -> EncState {
        EncState {
            atoms: self.atoms@.map_values(|p: (Term, usize)| (p.0, p.1 as nat)),
            clauses: self.clauses@.map_values(|c: Vec<i32>| c@.map_values(|x: i32| x as int)),
            next: self.next as nat,
            defs: self.defs@,
        }
    }
}

impl Encoder {
    fn new() -> (r: Encoder)
        ensures
            r@ == empty_state(),
    {
        let e = Encoder { atoms: Vec::new(), clauses: Vec::new(), next: 0, defs: Ghost(Seq::empty()) };
        assert(e@ =~= empty_state());
        e
    }

    /// Allocate a fresh variable standing for `t`.
    fn fresh(&mut self, Ghost(t): Ghost<Term>) -> (v: usize)
        requires
            old(self)@.next < i32::MAX,
        ensures
            v == old(self)@.next,
            final(self)@ == fresh_state(old(self)@, t),
    {
        let v = self.next;
        self.next += 1;
        self.defs = Ghost(self.defs@.push(t));
        proof {
            assert(self@ =~= fresh_state(old(self)@, t));
        }
        v
    }

    /// Emit a clause.
    fn clause(&mut self, lits: Vec<i32>)
        ensures
            final(self)@ == add_clause(old(self)@, lits@.map_values(|x: i32| x as int)),
    {
        let ghost c = lits@;
        self.clauses.push(lits);
        proof {
            assert(self.clauses@.map_values(|c: Vec<i32>| c@.map_values(|x: i32| x as int))
                =~= old(self).clauses@.map_values(|c: Vec<i32>| c@.map_values(|x: i32| x as int)).push(c.map_values(|x: i32| x as int)));
            assert(self@ =~= add_clause(old(self)@, c.map_values(|x: i32| x as int)));
        }
    }

    /// The variable of an atom structurally equal to `t`, if one was met.
    fn find_atom(&self, t: &Term) -> (r: Option<usize>)
        ensures
            r matches Some(v) ==> lookup_atom(self@.atoms, *t) == Some(v as nat),
            r is None ==> lookup_atom(self@.atoms, *t) is None,
    {
        let ghost atoms = self@.atoms;
        let mut i: usize = 0;
        assert(atoms.skip(0) == atoms);
        while i < self.atoms.len()
            invariant
                0 <= i <= self.atoms@.len(),
                atoms == self@.atoms,
                atoms.len() == self.atoms@.len(),
                lookup_atom(atoms, *t) == lookup_atom(atoms.skip(i as int), *t),
            decreases self.atoms@.len() - i,
        {
            assert(atoms.skip(i as int)[0] == atoms[i as int]);
            assert(atoms[i as int] == (self.atoms@[i as int].0, self.atoms@[i as int].1 as nat));
            if term_eq(&self.atoms[i].0, t) {
                return Some(self.atoms[i].1);
            }
            assert(atoms.skip(i as int).drop_first() == atoms.skip(i + 1));
            i += 1;
        }
        None
    }

    /// Return the variable standing for the whole sub-term `t`, emitting the
    /// Tseitin clauses that make it equivalent to the sub-term.
    fn encode(&mut self, t: &Term) -> (v: usize)
        requires
            state_wf(old(self)@),
            tseitin(*t, old(self)@).1.next <= i32::MAX,
        ensures
            (v as nat, final(self)@) == tseitin(*t, old(self)@),
        decreases *t,
    {
        proof { lemma_tseitin_wf(*t, self@); }
        match t {
            Term::Bool(b) => {
                let v = self.fresh(Ghost(*t));
                let pv = lit(v);
                let x = if *b { pv } else { -pv };
                self.clause(vec![x]);
                proof { assert(self@ =~~= tseitin(*t, old(self)@).1); }
                v
            },
            Term::And(a, b) => {
                let ghost s0 = self@;
                proof { lemma_tseitin_wf(**a, s0); lemma_tseitin_wf(**b, tseitin(**a, s0).1); }
                let va = self.encode(a);
                let vb = self.encode(b);
                let v = self.fresh(Ghost(*t));
                let (pv, pa) = (lit(v), lit(va));
                let (nv, na) = (-pv, -pa);
                let pb = lit(vb);
                let nb = -pb;
                self.clause(vec![nv, pa]);
                self.clause(vec![nv, pb]);
                self.clause(vec![na, nb, pv]);
                proof { assert(self@ =~~= tseitin(*t, s0).1); }
                v
            },
            Term::Or(a, b) => {
                let ghost s0 = self@;
                proof { lemma_tseitin_wf(**a, s0); lemma_tseitin_wf(**b, tseitin(**a, s0).1); }
                let va = self.encode(a);
                let vb = self.encode(b);
                let v = self.fresh(Ghost(*t));
                let (pv, pa) = (lit(v), lit(va));
                let (nv, na) = (-pv, -pa);
                let pb = lit(vb);
                let nb = -pb;
                self.clause(vec![nv, pa, pb]);
                self.clause(vec![na, pv]);
                self.clause(vec![nb, pv]);
                proof { assert(self@ =~~= tseitin(*t, s0).1); }
                v
            },
            Term::Not(a) => {
                let ghost s0 = self@;
                proof { lemma_tseitin_wf(**a, s0); }
                let va = self.encode(a);
                let v = self.fresh(Ghost(*t));
                let (pv, pa) = (lit(v), lit(va));
                let (nv, na) = (-pv, -pa);
                self.clause(vec![nv, na]);
                self.clause(vec![pa, pv]);
                proof { assert(self@ =~~= tseitin(*t, s0).1); }
                v
            },
            Term::Implies(a, b) => {
                let ghost s0 = self@;
                proof { lemma_tseitin_wf(**a, s0); lemma_tseitin_wf(**b, tseitin(**a, s0).1); }
                let va = self.encode(a);
                let vb = self.encode(b);
                let v = self.fresh(Ghost(*t));
                let (pv, pa) = (lit(v), lit(va));
                let (nv, na) = (-pv, -pa);
                let pb = lit(vb);
                let nb = -pb;
                self.clause(vec![nv, na, pb]);
                self.clause(vec![pa, pv]);
                self.clause(vec![nb, pv]);
                proof { assert(self@ =~~= tseitin(*t, s0).1); }
                v
            },
            _ => {
                match self.find_atom(t) {
                    Some(v) => v,
                    None => {
                        let ghost s0 = self@;
                        let v = self.fresh(Ghost(*t));
                        self.atoms.push((t.clone(), v));
                        proof {
                            assert(self@.atoms =~= fresh_state(s0, *t).atoms.push((*t, v as nat)));
                            assert(self@ =~~= tseitin(*t, s0).1);
                        }
                        v
                    },
                }
            },
        }
    }
}

/// The assignments satisfying a CNF read from DIMACS clauses are those
/// satisfying the DIMACS clauses.
proof fn lemma_cnf_dimacs(cnf: Cnf, n: nat, cls: Seq<Seq<int>>, cl32: Seq<Seq<i32>>)
    requires
        cnf.spec_vars() == n,
        n <= i32::MAX,
        cls.len() == cl32.len(),
        cnf.spec_clauses().len() == cl32.len(),
        forall|i: int| 0 <= i < cl32.len() ==> (#[trigger] cls[i]).len() == cl32[i].len() && cnf.spec_clauses()[i].len() == cl32[i].len(),
        forall|i: int, j: int| 0 <= i < cl32.len() && 0 <= j < cl32[i].len() ==> #[trigger] cls[i][j] == cl32[i][j] as int,
        forall|i: int, j: int| 0 <= i < cl32.len() && 0 <= j < cl32[i].len() ==> #[trigger] cnf.spec_clauses()[i][j] == lit_of_dimacs(cl32[i][j]),
        forall|i: int, j: int| 0 <= i < cl32.len() && 0 <= j < cl32[i].len() ==> 1 <= #[trigger] cls[i][j] <= n || -(n as int) <= cls[i][j] <= -1,
    ensures
        cnf.satisfiable() == dimacs_satisfiable(n, cls),
{
    assert forall|a: Seq<bool>, i: int, j: int| a.len() == n && 0 <= i < cl32.len() && 0 <= j < cl32[i].len()
        implies #[trigger] lit_true(cnf.spec_clauses()[i][j], a) == #[trigger] dlit_true(cls[i][j], a) by {
        assert(cls[i][j] == cl32[i][j] as int);
        lemma_lit_of_dimacs(cl32[i][j]);
    }
    if cnf.satisfiable() {
        let a = choose|a: Seq<bool>| cnf.sat_by(a);
        assert forall|i: int| 0 <= i < cls.len() implies dclause_true(#[trigger] cls[i], a) by {
            assert(clause_sat(cnf.spec_clauses()[i], a));
            let k = choose|k: int| 0 <= k < cnf.spec_clauses()[i].len() && lit_true(#[trigger] cnf.spec_clauses()[i][k], a);
            assert(lit_true(cnf.spec_clauses()[i][k], a) == dlit_true(cls[i][k], a));
        }
    }
    if dimacs_satisfiable(n, cls) {
        let a = choose|a: Seq<bool>| a.len() == n && forall|i: int|
            0 <= i < cls.len() ==> dclause_true(#[trigger] cls[i], a);
        assert forall|i: int| 0 <= i < cnf.spec_clauses().len() implies clause_sat(#[trigger] cnf.spec_clauses()[i], a) by {
            let k = choose|k: int| 0 <= k < cls[i].len() && dlit_true(#[trigger] cls[i][k], a);
            assert(lit_true(cnf.spec_clauses()[i][k], a) == dlit_true(cls[i][k], a));
        }
        assert(cnf.sat_by(a));
    }
}

/// Decide `problem` via boolean abstraction. Returns `Unsat` only when the
/// abstraction is provably unsatisfiable; otherwise `Unknown`.
pub fn decide(problem: &Problem) -> (r: SatResult)
    requires
        abstraction(problem.spec_assertions()).next <= i32::MAX,
    ensures
        r == spec_decide(problem.spec_assertions()),
{
    let asserts = problem.assertions();
    let ghost ts = problem.spec_assertions();
    if asserts.len() == 0 {
        return SatResult::Unknown;
    }
    let mut enc = Encoder::new();
    let mut i: usize = 0;
    proof {
        assert(ts.skip(0) == ts);
        lemma_encode_all_wf(ts, empty_state());
    }
    while i < asserts.len()
        invariant
            0 <= i <= asserts@.len(),
            asserts@ == ts,
            abstraction(ts).next <= i32::MAX,
            state_wf(enc@),
            abstraction(ts) == encode_all(ts.skip(i as int), enc@),
        decreases asserts@.len() - i,
    {
        let ghost s0 = enc@;
        proof {
            let rest = ts.skip(i as int);
            lemma_tseitin_wf(rest[0], s0);
            let (v, s1) = tseitin(rest[0], s0);
            lemma_encode_all_wf(rest.drop_first(), add_clause(s1, seq![dlit(v)]));
            assert(rest[0] == ts[i as int]);
        }
        let va = enc.encode(&asserts[i]);
        let ghost mid = enc@;
        let pa = lit(va);
        let unit = vec![pa];
        let ghost uv = unit@;
        enc.clause(unit);
        proof {
            assert(uv.map_values(|x: i32| x as int) =~= seq![dlit(va as nat)]);
            assert(enc@ =~~= add_clause(mid, seq![dlit(va as nat)]));
            assert(ts.skip(i as int).drop_first() == ts.skip(i + 1));
        }
        i += 1;
    }
    proof {
        assert(ts.skip(i as int) =~= Seq::<Term>::empty());
    }
    let ghost fin = enc@;
    let mut refs: Vec<&[i32]> = Vec::new();
    let mut j: usize = 0;
    while j < enc.clauses.len()
        invariant
            0 <= j <= enc.clauses@.len(),
            refs@.len() == j,
            forall|k: int| 0 <= k < j ==> (#[trigger] refs@[k])@ == enc.clauses@[k]@,
        decreases enc.clauses@.len() - j,
    {
        refs.push(enc.clauses[j].as_slice());
        j += 1;
    }
    let ghost cl32 = refs@.map_values(|c: &[i32]| c@);
    proof {
        assert forall|k: int, x: int| 0 <= k < cl32.len() && 0 <= x < cl32[k].len()
            implies 1 <= #[trigger] cl32[k][x] <= fin.next || -(fin.next as int) <= cl32[k][x] <= -1 by {
            assert(fin.clauses[k][x] == cl32[k][x] as int);
        }
        assert forall|k: int, x: int| 0 <= k < cl32.len() && 0 <= x < cl32[k].len()
            implies !dimacs_rejected(#[trigger] cl32[k][x], enc.next) by {
            assert(fin.clauses[k][x] == cl32[k][x] as int);
        }
        assert(!some_rejected(enc.next, cl32));
    }
    let cnf = match Cnf::from_lits(enc.next, refs.as_slice()) {
        Some(c) => c,
        None => {
            return SatResult::Unknown;
        },
    };
    proof {
        assert forall|k: int| 0 <= k < cl32.len() implies (#[trigger] fin.clauses[k]).len() == cl32[k].len() by {}
        lemma_cnf_dimacs(cnf, fin.next, fin.clauses, cl32);
    }
    proof { lemma_satisfiable_cnf(cnf); }
    let ghost sat = cnf.satisfiable();
    let mut solver = Solver::new(cnf);
    match solver.run() {
        Some(CdclResult::Sat) => SatResult::Unknown,
        Some(CdclResult::Unsat) => SatResult::Unsat,
        None => {
            let input = solver.input();
            proof { lemma_satisfiable_cnf(*input); }
            if input.exhaustive_satisfiable() {
                SatResult::Unknown
            } else {
                SatResult::Unsat
            }
        },
    }
}

} // verus!
