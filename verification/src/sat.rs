//! Boolean formulas in conjunctive normal form, and a complete decision
//! procedure for their satisfiability.
//!
//! Literals are encoded as `var << 1 | sign`, where `sign == 1` means the
//! literal is negated.  A [`Cnf`] is built from DIMACS integers by
//! [`Cnf::from_lits`], which rejects malformed input instead of panicking.
use vstd::prelude::*;

pub mod solver;
pub use solver::{Solver, Step};

verus! {

/// A Boolean variable, identified by a `0`-based index.
pub type Var = u32;

/// A literal: a variable with a sign.
///
/// Encoded as `var << 1 | sign`, where `sign == 1` means *negated*.
#[derive(Clone, Copy, Debug, PartialEq, Eq, Hash, Structural)]
pub struct Lit(u32);

impl Lit {
    /// The raw encoding `var << 1 | sign`.
    pub closed spec fn code(self) -> u32 {
        self.0
    }

    /// The variable of the literal.
    pub open spec fn spec_var(self) -> u32 {
        self.code() >> 1
    }

    /// Whether the literal is negated.
    pub open spec fn spec_is_neg(self) -> bool {
        self.code() & 1 == 1
    }

    /// The encoding of `var` with the given sign (bits of `var` above bit 30
    /// are shifted out, as the executable shift does).
    pub open spec fn encode(var: u32, negated: bool) -> u32 {
        ((var << 1u32) | (if negated { 1u32 } else { 0u32 })) as u32
    }

    /// Build a literal. `negated == true` means the literal is `¬var`.
    pub fn new(var: Var, negated: bool) -> (r: Lit)
        ensures
            r.code() == Self::encode(var, negated),
            var < 0x8000_0000 ==> r.spec_var() == var,
            r.spec_is_neg() == negated,
    {
        let l = Lit((var << 1) | (if negated { 1u32 } else { 0u32 }));
        proof {
            let n: u32 = if negated { 1u32 } else { 0u32 };
            assert(var < 0x8000_0000 ==> (((var << 1u32) | n) >> 1u32) == var) by (bit_vector)
                requires n == 0 || n == 1;
            assert((((var << 1u32) | n) & 1u32 == 1u32) == (n == 1)) by (bit_vector)
                requires n == 0 || n == 1;
        }
        l
    }

    /// The underlying variable.
    pub fn var(self) -> (r: Var)
        ensures
            r == self.spec_var(),
    {
        self.0 >> 1
    }

    /// Whether the literal is negated.
    pub fn is_neg(self) -> (r: bool)
        ensures
            r == self.spec_is_neg(),
    {
        self.0 & 1 == 1
    }

    /// Whether the literal is positive (not negated).
    pub fn is_pos(self) -> (r: bool)
        ensures
            r == !self.spec_is_neg(),
    {
        !self.is_neg()
    }

    /// The literal with the sign bit flipped.
    pub open spec fn spec_neg(self) -> Lit {
        Lit::from_code(self.code() ^ 1)
    }

    /// The literal with the given raw encoding.
    pub closed spec fn from_code(c: u32) -> Lit {
        Lit(c)
    }

    /// The negation of this literal.
    pub fn neg(self) -> (r: Lit)
        ensures
            r == self.spec_neg(),
            r.code() == self.code() ^ 1,
            r.spec_var() == self.spec_var(),
            r.spec_is_neg() == !self.spec_is_neg(),
    {
        let c = self.0;
        proof {
            assert(((c ^ 1u32) >> 1u32) == (c >> 1u32)) by (bit_vector);
            assert((((c ^ 1u32) & 1u32) == 1u32) == !((c & 1u32) == 1u32)) by (bit_vector);
        }
        Lit(c ^ 1)
    }

    /// Dense index used for watch lists (`2 * var + sign`).
    pub fn index(self) -> (r: usize)
        ensures
            r == self.code(),
    {
        self.0 as usize
    }

    /// Build a literal from a nonzero DIMACS integer: `x > 0` is the
    /// positive literal of variable `x - 1`, `x < 0` the negative literal of
    /// variable `-x - 1`.
    ///
    /// `0` (the DIMACS clause terminator) is not a literal; the caller must
    /// not pass it, nor `i32::MIN`, whose negation overflows.
    pub fn from_dimacs(x: i32) -> (r: Lit)
        requires
            x != 0,
            x != i32::MIN,
        ensures
            r == lit_of_dimacs(x),
            r.spec_var() == dimacs_var(x),
            r.spec_is_neg() == (x < 0),
    {
        if x > 0 {
            Lit::new((x - 1) as Var, false)
        } else {
            Lit::new((-x - 1) as Var, true)
        }
    }
}

/// A literal is determined by its variable and sign, and its encoding is
/// `2 * var + sign`.
pub proof fn lemma_lit_code(a: Lit)
    ensures
        a.code() == 2 * a.spec_var() + (if a.spec_is_neg() { 1int } else { 0int }),
        a.spec_var() < 0x8000_0000,
{
    let c = a.code();
    assert(c == 2 * (c >> 1u32) + (c & 1u32)) by (bit_vector);
    assert((c & 1u32) == 1u32 || (c & 1u32) == 0u32) by (bit_vector);
    assert((c >> 1u32) < 0x8000_0000) by (bit_vector);
}

/// Two literals with the same variable and sign are the same literal.
pub proof fn lemma_lit_eq(a: Lit, b: Lit)
    requires
        a.spec_var() == b.spec_var(),
        a.spec_is_neg() == b.spec_is_neg(),
    ensures
        a == b,
{
    lemma_lit_code(a);
    lemma_lit_code(b);
    assert(a.0 == b.0);
}

/// Negation keeps the variable and flips the sign.
pub proof fn lemma_neg(a: Lit)
    ensures
        a.spec_neg().spec_var() == a.spec_var(),
        a.spec_neg().spec_is_neg() == !a.spec_is_neg(),
        a.spec_neg().spec_neg() == a,
{
    let c = a.code();
    assert(((c ^ 1u32) >> 1u32) == (c >> 1u32)) by (bit_vector);
    assert((((c ^ 1u32) & 1u32) == 1u32) == !((c & 1u32) == 1u32)) by (bit_vector);
    assert(((c ^ 1u32) ^ 1u32) == c) by (bit_vector);
}

/// The 0-based variable that a nonzero DIMACS integer names.
pub open spec fn dimacs_var(x: i32) -> int {
    if x > 0 {
        x - 1
    } else {
        -x - 1
    }
}

/// The literal that a nonzero DIMACS integer denotes.
pub open spec fn lit_of_dimacs(x: i32) -> Lit {
    Lit::from_code(Lit::encode(dimacs_var(x) as u32, x < 0))
}

/// The literal that a nonzero DIMACS integer denotes names the variable
/// `|x| - 1` and is negated exactly when `x < 0`.
pub proof fn lemma_lit_of_dimacs(x: i32)
    requires
        x != 0,
    ensures
        lit_of_dimacs(x).spec_var() == dimacs_var(x),
        lit_of_dimacs(x).spec_is_neg() == (x < 0),
{
    let v = dimacs_var(x) as u32;
    assert(0 <= dimacs_var(x) < 0x8000_0000);
    let n: u32 = if x < 0 { 1u32 } else { 0u32 };
    assert((((v << 1u32) | n) >> 1u32) == v) by (bit_vector)
        requires v < 0x8000_0000, n == 0 || n == 1;
    assert((((v << 1u32) | n) & 1u32 == 1u32) == (n == 1)) by (bit_vector)
        requires n == 0 || n == 1;
}

/// A DIMACS integer that `Cnf::from_lits` rejects for `vars` variables.
pub open spec fn dimacs_rejected(x: i32, vars: usize) -> bool {
    x == 0 || dimacs_var(x) >= vars
}

/// A DIMACS integer that `Cnf::from_lits` accepts for `vars` variables.
pub open spec fn dimacs_accepted(x: i32, vars: usize) -> bool {
    x != 0 && dimacs_var(x) < vars
}

/// Some DIMACS integer of the clauses is rejected.
pub open spec fn some_rejected(vars: usize, cl: Seq<Seq<i32>>) -> bool {
    exists|i: int, j: int|
        0 <= i < cl.len() && 0 <= j < cl[i].len() && dimacs_rejected(#[trigger] cl[i][j], vars)
}

/// A clause: a disjunction of literals.
#[derive(Clone, Debug, PartialEq, Eq)]
pub struct Clause {
    lits: Vec<Lit>,
    learnt: bool,
}

impl Clause {
    /// The literals of the clause, in order.
    pub closed spec fn spec_lits(self) -> Seq<Lit> {
        self.lits@
    }

    /// Whether the clause was learned during search.
    pub closed spec fn spec_learnt(self) -> bool {
        self.learnt
    }

    /// The literals of the clause.
    pub fn lits(&self) -> (r: &[Lit])
        ensures
            r@ == self.spec_lits(),
    {
        self.lits.as_slice()
    }

    /// Whether this clause was learned during search.
    pub fn is_learnt(&self) -> (r: bool)
        ensures
            r == self.spec_learnt(),
    {
        self.learnt
    }
}

/// A Boolean formula in conjunctive normal form over variables `0..vars`.
#[derive(Clone, Debug, PartialEq, Eq)]
pub struct Cnf {
    vars: usize,
    clauses: Vec<Clause>,
}

/// A literal is true under a total assignment of the variables.
pub open spec fn lit_true(l: Lit, a: Seq<bool>) -> bool {
    a[l.spec_var() as int] != l.spec_is_neg()
}

/// A clause is satisfied by an assignment.
pub open spec fn clause_sat(c: Seq<Lit>, a: Seq<bool>) -> bool {
    exists|k: int| 0 <= k < c.len() && lit_true(#[trigger] c[k], a)
}

/// Every literal of the clause is decided false by the assignment prefix.
pub open spec fn clause_falsified(c: Seq<Lit>, a: Seq<bool>) -> bool {
    forall|k: int|
        0 <= k < c.len() ==> (#[trigger] c[k]).spec_var() < a.len() && !lit_true(c[k], a)
}

impl Cnf {
    /// Number of variables.
    pub closed spec fn spec_vars(self) -> nat {
        self.vars as nat
    }

    /// The clauses, each as its sequence of literals.
    pub closed spec fn spec_clauses(self) -> Seq<Seq<Lit>> {
        self.clauses@.map_values(|c: Clause| c.spec_lits())
    }

    /// Whether every clause was given by the caller (none learned).
    pub closed spec fn spec_all_original(self) -> bool {
        forall|i: int| 0 <= i < self.clauses@.len() ==> !(#[trigger] self.clauses@[i]).spec_learnt()
    }

    /// Every literal names a variable in `0..vars`.
    pub open spec fn wf(self) -> bool {
        forall|i: int, k: int|
            0 <= i < self.spec_clauses().len() && 0 <= k < self.spec_clauses()[i].len()
                ==> (#[trigger] self.spec_clauses()[i][k]).spec_var() < self.spec_vars()
    }

    /// `a` is a total assignment of the variables satisfying every clause.
    pub open spec fn sat_by(self, a: Seq<bool>) -> bool {
        &&& a.len() == self.spec_vars()
        &&& forall|i: int| 0 <= i < self.spec_clauses().len() ==> clause_sat(#[trigger] self.spec_clauses()[i], a)
    }

    /// Some total assignment satisfies every clause.
    pub open spec fn satisfiable(self) -> bool {
        exists|a: Seq<bool>| self.sat_by(a)
    }

    /// Some total assignment extending `prefix` satisfies every clause.
    pub open spec fn satisfiable_from(self, prefix: Seq<bool>) -> bool {
        exists|a: Seq<bool>| #[trigger] self.sat_by(a) && prefix.len() <= a.len() && a.subrange(0, prefix.len() as int) == prefix
    }

    /// Some clause is decided false by the assignment prefix.
    pub open spec fn falsified_by(self, prefix: Seq<bool>) -> bool {
        exists|i: int| 0 <= i < self.spec_clauses().len() && clause_falsified(#[trigger] self.spec_clauses()[i], prefix)
    }

    /// Number of variables (the solver reserves indices `0..vars`).
    pub fn var_count(&self) -> (r: usize)
        ensures
            r == self.spec_vars(),
    {
        self.vars
    }

    /// The clauses of the formula.
    pub fn clauses(&self) -> (r: &[Clause])
        ensures
            r@.map_values(|c: Clause| c.spec_lits()) == self.spec_clauses(),
            r@.len() == self.spec_clauses().len(),
    {
        self.clauses.as_slice()
    }

    /// Build a CNF from a variable count and a list of clauses, each given as a
    /// slice of DIMACS integers (positive/negative).
    ///
    /// Returns `None` on malformed input rather than panicking: a `0` literal
    /// (the DIMACS clause terminator) or a literal referencing a variable
    /// `>= vars` is rejected.
    pub fn from_lits(vars: usize, clauses: &[&[i32]]) -> (r: Option<Cnf>)
        ensures
            r is None <==> some_rejected(vars, clauses@.map_values(|c: &[i32]| c@)),
            r matches Some(cnf) ==> {
                &&& cnf.wf()
                &&& cnf.spec_vars() == vars
                &&& cnf.spec_all_original()
                &&& cnf.spec_clauses().len() == clauses@.len()
                &&& forall|i: int| 0 <= i < clauses@.len() ==> (#[trigger] cnf.spec_clauses()[i]).len() == clauses@[i]@.len()
                &&& forall|i: int, j: int| 0 <= i < clauses@.len() && 0 <= j < clauses@[i]@.len()
                    ==> #[trigger] cnf.spec_clauses()[i][j] == lit_of_dimacs(clauses@[i]@[j])
            },
    {
        let ghost cl = clauses@.map_values(|c: &[i32]| c@);
        let mut out: Vec<Clause> = Vec::new();
        let mut i: usize = 0;
        while i < clauses.len()
            invariant
                0 <= i <= clauses@.len(),
                cl == clauses@.map_values(|c: &[i32]| c@),
                out@.len() == i,
                forall|i2: int, j2: int| 0 <= i2 < i && 0 <= j2 < cl[i2].len() ==> dimacs_accepted(#[trigger] cl[i2][j2], vars),
                forall|i2: int| 0 <= i2 < i ==> !(#[trigger] out@[i2]).learnt,
                forall|i2: int| 0 <= i2 < i ==> (#[trigger] out@[i2]).lits@.len() == cl[i2].len(),
                forall|i2: int, j2: int| 0 <= i2 < i && 0 <= j2 < cl[i2].len() ==> #[trigger] out@[i2].lits@[j2] == lit_of_dimacs(cl[i2][j2]),
            decreases clauses@.len() - i,
        {
            let c: &[i32] = clauses[i];
            assert(c@ == cl[i as int]);
            let mut lits: Vec<Lit> = Vec::new();
            let mut j: usize = 0;
            while j < c.len()
                invariant
                    0 <= i < clauses@.len(),
                    0 <= j <= c@.len(),
                    c@ == cl[i as int],
                    cl == clauses@.map_values(|c: &[i32]| c@),
                    forall|i2: int, j2: int| 0 <= i2 < i && 0 <= j2 < cl[i2].len() ==> dimacs_accepted(#[trigger] cl[i2][j2], vars),
                    forall|j2: int| 0 <= j2 < j ==> dimacs_accepted(#[trigger] c@[j2], vars),
                    lits@.len() == j,
                    forall|j2: int| 0 <= j2 < j ==> #[trigger] lits@[j2] == lit_of_dimacs(c@[j2]),
                decreases c@.len() - j,
            {
                let x = c[j];
                if x == 0 {
                    assert(dimacs_rejected(cl[i as int][j as int], vars));
                    return None;
                }
                let var: usize = if x > 0 {
                    (x - 1) as usize
                } else if x == i32::MIN {
                    0x7FFF_FFFFusize
                } else {
                    (-x - 1) as usize
                };
                if var >= vars {
                    assert(dimacs_rejected(cl[i as int][j as int], vars));
                    return None;
                }
                let l = Lit::new(var as Var, x < 0);
                lits.push(l);
                j += 1;
            }
            out.push(Clause { lits, learnt: false });
            i += 1;
        }
        let cnf = Cnf { vars, clauses: out };
        proof {
            assert forall|i2: int, j2: int| 0 <= i2 < cl.len() && 0 <= j2 < cl[i2].len()
                implies !dimacs_rejected(#[trigger] cl[i2][j2], vars) by {
                assert(dimacs_accepted(cl[i2][j2], vars));
            }
            assert forall|i2: int, k: int|
                0 <= i2 < cnf.spec_clauses().len() && 0 <= k < cnf.spec_clauses()[i2].len()
                implies (#[trigger] cnf.spec_clauses()[i2][k]).spec_var() < cnf.spec_vars() by {
                let x = cl[i2][k];
                assert(dimacs_accepted(x, vars));
                let v = dimacs_var(x) as u32;
                let n: u32 = if x < 0 { 1u32 } else { 0u32 };
                assert(v < 0x8000_0000 ==> (((v << 1u32) | n) >> 1u32) == v) by (bit_vector)
                    requires n == 0 || n == 1;
            }
        }
        Some(cnf)
    }

    /// Whether some clause is decided false by the assignment prefix `a`.
    fn falsified(&self, a: &Vec<bool>) -> (r: bool)
        ensures
            r == self.falsified_by(a@),
    {
        let mut i: usize = 0;
        while i < self.clauses.len()
            invariant
                0 <= i <= self.clauses@.len(),
                forall|i2: int| 0 <= i2 < i ==> !clause_falsified(#[trigger] self.spec_clauses()[i2], a@),
            decreases self.clauses@.len() - i,
        {
            let lits = &self.clauses[i].lits;
            let ghost c = self.spec_clauses()[i as int];
            assert(c == lits@);
            let mut all_false = true;
            let mut k: usize = 0;
            while k < lits.len()
                invariant
                    0 <= k <= lits@.len(),
                    c == lits@,
                    all_false == (forall|k2: int| 0 <= k2 < k ==> (#[trigger] c[k2]).spec_var() < a@.len() && !lit_true(c[k2], a@)),
                decreases lits@.len() - k,
            {
                let l = lits[k];
                let v = l.var() as usize;
                if v >= a.len() || a[v] != l.is_neg() {
                    all_false = false;
                }
                k += 1;
            }
            if all_false {
                assert(clause_falsified(c, a@));
                return true;
            }
            i += 1;
        }
        false
    }

    /// Search the assignments extending `a` (of the first `a.len()`
    /// variables) for one satisfying every clause.
    fn search(&self, a: &mut Vec<bool>) -> (r: bool)
        requires
            self.wf(),
            old(a)@.len() <= self.spec_vars(),
        ensures
            final(a)@ == old(a)@,
            r == self.satisfiable_from(old(a)@),
        decreases self.spec_vars() - old(a)@.len(),
    {
        let ghost a0 = a@;
        if self.falsified(a) {
            proof { self.lemma_falsified_unsat(a0); }
            return false;
        }
        if a.len() == self.vars {
            proof {
                assert forall|i: int| 0 <= i < self.spec_clauses().len()
                    implies clause_sat(#[trigger] self.spec_clauses()[i], a0) by {
                    let c = self.spec_clauses()[i];
                    assert(!clause_falsified(c, a0));
                    let k = choose|k: int| 0 <= k < c.len() && !((#[trigger] c[k]).spec_var() < a0.len() && !lit_true(c[k], a0));
                    assert(c[k].spec_var() < self.spec_vars());
                    assert(lit_true(c[k], a0));
                }
                assert(self.sat_by(a0));
                assert(a0.subrange(0, a0.len() as int) == a0);
            }
            return true;
        }
        a.push(true);
        let found_true = self.search(a);
        a.pop();
        proof { assert(a@ == a0); }
        if found_true {
            proof {
                let w = choose|w: Seq<bool>| #[trigger] self.sat_by(w) && a0.push(true).len() <= w.len() && w.subrange(0, a0.len() as int + 1) == a0.push(true);
                assert(w.subrange(0, a0.len() as int) == w.subrange(0, a0.len() as int + 1).subrange(0, a0.len() as int));
                assert(w.subrange(0, a0.len() as int) == a0);
            }
            return true;
        }
        a.push(false);
        let found_false = self.search(a);
        a.pop();
        proof {
            assert(a@ == a0);
            if found_false {
                let w = choose|w: Seq<bool>| #[trigger] self.sat_by(w) && a0.push(false).len() <= w.len() && w.subrange(0, a0.len() as int + 1) == a0.push(false);
                assert(w.subrange(0, a0.len() as int) == w.subrange(0, a0.len() as int + 1).subrange(0, a0.len() as int));
                assert(w.subrange(0, a0.len() as int) == a0);
            } else if self.satisfiable_from(a0) {
                let w = choose|w: Seq<bool>| #[trigger] self.sat_by(w) && a0.len() <= w.len() && w.subrange(0, a0.len() as int) == a0;
                let b = w[a0.len() as int];
                assert(w.subrange(0, a0.len() as int + 1) == a0.push(b));
                if b {
                    assert(self.satisfiable_from(a0.push(true)));
                } else {
                    assert(self.satisfiable_from(a0.push(false)));
                }
            }
        }
        found_false
    }

    /// A falsified prefix has no satisfying extension.
    proof fn lemma_falsified_unsat(self, prefix: Seq<bool>)
        requires
            self.falsified_by(prefix),
        ensures
            !self.satisfiable_from(prefix),
    {
        let i = choose|i: int| 0 <= i < self.spec_clauses().len() && clause_falsified(#[trigger] self.spec_clauses()[i], prefix);
        let c = self.spec_clauses()[i];
        if self.satisfiable_from(prefix) {
            let w = choose|w: Seq<bool>| #[trigger] self.sat_by(w) && prefix.len() <= w.len() && w.subrange(0, prefix.len() as int) == prefix;
            assert(clause_sat(c, w));
            let k = choose|k: int| 0 <= k < c.len() && lit_true(#[trigger] c[k], w);
            assert(c[k].spec_var() < prefix.len());
            assert(w[c[k].spec_var() as int] == w.subrange(0, prefix.len() as int)[c[k].spec_var() as int]);
            assert(false);
        }
    }

    /// Decide by exhaustive search whether some assignment of the variables
    /// satisfies every clause.
    pub(crate) fn exhaustive_satisfiable(&self) -> (r: bool)
        requires
            self.wf(),
        ensures
            r == self.satisfiable(),
    {
        let mut a: Vec<bool> = Vec::new();
        let r = self.search(&mut a);
        proof {
            let e = Seq::<bool>::empty();
            assert(a@ == e);
            if r {
                let w = choose|w: Seq<bool>| #[trigger] self.sat_by(w) && e.len() <= w.len() && w.subrange(0, 0) == e;
                assert(self.sat_by(w));
            } else {
                assert forall|w: Seq<bool>| !self.sat_by(w) by {
                    if self.sat_by(w) {
                        assert(w.subrange(0, 0) == e);
                        assert(self.satisfiable_from(e));
                    }
                }
            }
        }
        r
    }
}

/// The result of a satisfiability query.
#[derive(Clone, Copy, Debug, PartialEq, Eq)]
pub enum SatResult {
    /// There exists an assignment satisfying every clause.
    Sat,
    /// No assignment satisfies every clause.
    Unsat,
}

} // verus!
