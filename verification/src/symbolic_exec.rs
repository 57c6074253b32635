//! Whole-program symbolic execution.
//!
//! Interprets a small imperative language over *symbolic* values instead of
//! concrete ones, accumulating a path condition (PC) for every explored path
//! and pruning infeasible paths with an SMT backend ([`crate::smt_lite`]).
//!
//! Two defects are detected automatically:
//!
//! - **Division by zero** — a `Div` whose denominator can be `0` on a feasible
//!   path.
//! - **Broken assertions** — an `Assert` whose negation is feasible.
//!
//! [`run`] is specified by [`run_from`], which describes the whole
//! exploration: the violations it reports, in order, and the number of
//! feasible paths it completes.
use vstd::prelude::*;
use crate::smt_lite::{Problem, SatResult, Sort, Term, spec_check_sat, check_sat_fails};

verus! {

/// A symbolic integer expression.
#[derive(Debug, PartialEq)]
pub enum SExpr {
    /// A concrete integer.
    Const(i64),
    /// A free symbolic input.
    Sym(String),
    /// A program variable (resolved against the symbolic store).
    Var(String),
    /// Addition.
    Add(Box<SExpr>, Box<SExpr>),
    /// Subtraction.
    Sub(Box<SExpr>, Box<SExpr>),
    /// Multiplication.
    Mul(Box<SExpr>, Box<SExpr>),
    /// Division (a runtime error if the denominator is zero).
    Div(Box<SExpr>, Box<SExpr>),
    /// Negation.
    Neg(Box<SExpr>),
}

impl Clone for SExpr {
    fn clone(&self) -> (r: Self)
        ensures
            r == *self,
        decreases self,
    {
        match self {
            SExpr::Const(c) => SExpr::Const(*c),
            SExpr::Sym(s) => SExpr::Sym(s.clone()),
            SExpr::Var(v) => SExpr::Var(v.clone()),
            SExpr::Add(a, b) => SExpr::Add(Box::new(SExpr::clone(a)), Box::new(SExpr::clone(b))),
            SExpr::Sub(a, b) => SExpr::Sub(Box::new(SExpr::clone(a)), Box::new(SExpr::clone(b))),
            SExpr::Mul(a, b) => SExpr::Mul(Box::new(SExpr::clone(a)), Box::new(SExpr::clone(b))),
            SExpr::Div(a, b) => SExpr::Div(Box::new(SExpr::clone(a)), Box::new(SExpr::clone(b))),
            SExpr::Neg(a) => SExpr::Neg(Box::new(SExpr::clone(a))),
        }
    }
}

impl SExpr {
    /// A constant.
    pub fn const_(c: i64) -> (r: SExpr)
        ensures
            r == SExpr::Const(c),
    {
        SExpr::Const(c)
    }

    /// A free symbolic input.
    pub fn sym(name: &str) -> (r: SExpr)
        ensures
            r matches SExpr::Sym(s) && s@ == name@,
    {
        SExpr::Sym(name.to_owned())
    }

    /// A program variable reference.
    pub fn var(name: &str) -> (r: SExpr)
        ensures
            r matches SExpr::Var(s) && s@ == name@,
    {
        SExpr::Var(name.to_owned())
    }

    /// `a + b`.
    pub fn add(a: SExpr, b: SExpr) -> (r: SExpr)
        ensures
            r == SExpr::Add(Box::new(a), Box::new(b)),
    {
        SExpr::Add(Box::new(a), Box::new(b))
    }

    /// `a - b`.
    pub fn sub(a: SExpr, b: SExpr) -> (r: SExpr)
        ensures
            r == SExpr::Sub(Box::new(a), Box::new(b)),
    {
        SExpr::Sub(Box::new(a), Box::new(b))
    }

    /// `a * b`.
    pub fn mul(a: SExpr, b: SExpr) -> (r: SExpr)
        ensures
            r == SExpr::Mul(Box::new(a), Box::new(b)),
    {
        SExpr::Mul(Box::new(a), Box::new(b))
    }

    /// `a / b`.
    pub fn div(a: SExpr, b: SExpr) -> (r: SExpr)
        ensures
            r == SExpr::Div(Box::new(a), Box::new(b)),
    {
        SExpr::Div(Box::new(a), Box::new(b))
    }
}

/// The names of the free symbolic inputs of an expression.
pub open spec fn expr_syms(e: SExpr) -> Set<Seq<char>>
    decreases e,
{
    match e {
        SExpr::Const(_) => Set::empty(),
        SExpr::Sym(s) => set![s@],
        SExpr::Var(_) => Set::empty(),
        SExpr::Add(a, b) => expr_syms(*a) + expr_syms(*b),
        SExpr::Sub(a, b) => expr_syms(*a) + expr_syms(*b),
        SExpr::Mul(a, b) => expr_syms(*a) + expr_syms(*b),
        SExpr::Div(a, b) => expr_syms(*a) + expr_syms(*b),
        SExpr::Neg(a) => expr_syms(*a),
    }
}

/// The SMT term of an expression; `None` where it holds a division, which
/// the backend cannot represent.
pub open spec fn expr_term(e: SExpr) -> Option<Term>
    decreases e,
{
    match e {
        SExpr::Const(c) => Some(Term::Int(c)),
        SExpr::Sym(s) => Some(Term::Var(s)),
        SExpr::Var(v) => Some(Term::Var(v)),
        SExpr::Add(a, b) => match (expr_term(*a), expr_term(*b)) {
            (Some(x), Some(y)) => Some(Term::Add(Box::new(x), Box::new(y))),
            _ => None,
        },
        SExpr::Sub(a, b) => match (expr_term(*a), expr_term(*b)) {
            (Some(x), Some(y)) => Some(Term::Sub(Box::new(x), Box::new(y))),
            _ => None,
        },
        SExpr::Mul(a, b) => match (expr_term(*a), expr_term(*b)) {
            (Some(x), Some(y)) => Some(Term::Mul(Box::new(x), Box::new(y))),
            _ => None,
        },
        SExpr::Div(_, _) => None,
        SExpr::Neg(a) => match expr_term(*a) {
            Some(x) => Some(Term::Neg(Box::new(x))),
            None => None,
        },
    }
}

/// Insert a name into a list of names that holds no name twice.
fn insert_name(out: &mut Vec<String>, name: &String)
    requires
        forall|i: int, j: int|
            0 <= i < j < old(out)@.len() ==> (#[trigger] old(out)@[i])@ != (#[trigger] old(out)@[j])@,
    ensures
        names_of(final(out)@) == names_of(old(out)@).insert(name@),
        forall|i: int, j: int|
            0 <= i < j < final(out)@.len() ==> (#[trigger] final(out)@[i])@ != (#[trigger] final(out)@[j])@,
{
    let mut k: usize = 0;
    while k < out.len()
        invariant
            0 <= k <= out@.len(),
            out@ == old(out)@,
            forall|i: int, j: int|
                0 <= i < j < old(out)@.len() ==> (#[trigger] old(out)@[i])@ != (#[trigger] old(out)@[j])@,
            forall|i: int| 0 <= i < k ==> (#[trigger] out@[i])@ != name@,
        decreases out@.len() - k,
    {
        if out[k] == *name {
            proof {
                assert(names_of(out@).contains(name@)) by {
                    assert(out@.map_values(|s: String| s@)[k as int] == name@);
                }
                assert(names_of(out@).insert(name@) =~= names_of(out@));
            }
            return;
        }
        k += 1;
    }
    let ghost before = out@;
    out.push(name.clone());
    proof {
        let nb = before.map_values(|s: String| s@);
        assert(out@.map_values(|s: String| s@) =~= nb.push(name@));
        nb.lemma_push_to_set_commute(name@);
        assert(names_of(out@) =~= names_of(before).insert(name@));
        assert forall|i: int, j: int| 0 <= i < j < out@.len() implies (#[trigger] out@[i])@ != (
        #[trigger] out@[j])@ by {
            if j == before.len() {
                assert(out@[i] == before[i]);
            } else {
                assert(out@[i] == before[i]);
                assert(out@[j] == before[j]);
            }
        }
    }
}

/// The set of names in a list of strings.
pub open spec fn names_of(s: Seq<String>) -> Set<Seq<char>> {
    s.map_values(|x: String| x@).to_set()
}

impl SExpr {
    fn collect_syms(&self, out: &mut Vec<String>)
        requires
            forall|i: int, j: int|
                0 <= i < j < old(out)@.len() ==> (#[trigger] old(out)@[i])@ != (#[trigger] old(out)@[j])@,
        ensures
            names_of(final(out)@) == names_of(old(out)@) + expr_syms(*self),
            forall|i: int, j: int|
                0 <= i < j < final(out)@.len() ==> (#[trigger] final(out)@[i])@ != (#[trigger] final(out)@[j])@,
        decreases self,
    {
        match self {
            SExpr::Const(_) => {
                assert(names_of(out@) + expr_syms(*self) =~= names_of(out@));
            },
            SExpr::Sym(s) => {
                insert_name(out, s);
                assert(names_of(old(out)@).insert(s@) =~= names_of(old(out)@) + set![s@]);
            },
            SExpr::Var(_) => {
                assert(names_of(out@) + expr_syms(*self) =~= names_of(out@));
            },
            SExpr::Add(a, b) | SExpr::Sub(a, b) | SExpr::Mul(a, b) | SExpr::Div(a, b) => {
                a.collect_syms(out);
                b.collect_syms(out);
                assert(names_of(old(out)@) + expr_syms(**a) + expr_syms(**b) =~= names_of(old(out)@)
                    + expr_syms(*self));
            },
            SExpr::Neg(a) => a.collect_syms(out),
        }
    }

    fn to_term(&self) -> (r: Option<Term>)
        ensures
            r == expr_term(*self),
        decreases self,
    {
        match self {
            SExpr::Const(c) => Some(Term::int_(*c)),
            SExpr::Sym(s) => Some(Term::Var(s.clone())),
            SExpr::Var(v) => Some(Term::Var(v.clone())),
            SExpr::Add(a, b) => match (a.to_term(), b.to_term()) {
                (Some(x), Some(y)) => Some(Term::Add(Box::new(x), Box::new(y))),
                _ => None,
            },
            SExpr::Sub(a, b) => match (a.to_term(), b.to_term()) {
                (Some(x), Some(y)) => Some(Term::Sub(Box::new(x), Box::new(y))),
                _ => None,
            },
            SExpr::Mul(a, b) => match (a.to_term(), b.to_term()) {
                (Some(x), Some(y)) => Some(Term::Mul(Box::new(x), Box::new(y))),
                _ => None,
            },
            SExpr::Div(_a, _b) => {
                // The ground backend cannot represent division; callers treat
                // `None` as conservatively feasible.
                None
            },
            SExpr::Neg(a) => match a.to_term() {
                Some(x) => Some(Term::Neg(Box::new(x))),
                None => None,
            },
        }
    }
}

/// A symbolic boolean condition.
#[derive(Debug, PartialEq)]
pub enum SCond {
    /// Tautology.
    True,
    /// `a == b`.
    Eq(SExpr, SExpr),
    /// `a < b`.
    Lt(SExpr, SExpr),
    /// `a <= b`.
    Le(SExpr, SExpr),
    /// `a > b`.
    Gt(SExpr, SExpr),
    /// `a >= b`.
    Ge(SExpr, SExpr),
    /// `¬c`.
    Not(Box<SCond>),
    /// `a ∧ b`.
    And(Box<SCond>, Box<SCond>),
    /// `a ∨ b`.
    Or(Box<SCond>, Box<SCond>),
}

impl Clone for SCond {
    fn clone(&self) -> (r: Self)
        ensures
            r == *self,
        decreases self,
    {
        match self {
            SCond::True => SCond::True,
            SCond::Eq(a, b) => SCond::Eq(a.clone(), b.clone()),
            SCond::Lt(a, b) => SCond::Lt(a.clone(), b.clone()),
            SCond::Le(a, b) => SCond::Le(a.clone(), b.clone()),
            SCond::Gt(a, b) => SCond::Gt(a.clone(), b.clone()),
            SCond::Ge(a, b) => SCond::Ge(a.clone(), b.clone()),
            SCond::Not(c) => SCond::Not(Box::new(SCond::clone(c))),
            SCond::And(a, b) => SCond::And(Box::new(SCond::clone(a)), Box::new(SCond::clone(b))),
            SCond::Or(a, b) => SCond::Or(Box::new(SCond::clone(a)), Box::new(SCond::clone(b))),
        }
    }
}

impl SCond {
    /// `a == b`.
    pub fn eq(a: SExpr, b: SExpr) -> (r: SCond)
        ensures
            r == SCond::Eq(a, b),
    {
        SCond::Eq(a, b)
    }

    /// `a < b`.
    pub fn lt(a: SExpr, b: SExpr) -> (r: SCond)
        ensures
            r == SCond::Lt(a, b),
    {
        SCond::Lt(a, b)
    }

    /// `a <= b`.
    pub fn le(a: SExpr, b: SExpr) -> (r: SCond)
        ensures
            r == SCond::Le(a, b),
    {
        SCond::Le(a, b)
    }

    /// `a > b`.
    pub fn gt(a: SExpr, b: SExpr) -> (r: SCond)
        ensures
            r == SCond::Gt(a, b),
    {
        SCond::Gt(a, b)
    }

    /// `a >= b`.
    pub fn ge(a: SExpr, b: SExpr) -> (r: SCond)
        ensures
            r == SCond::Ge(a, b),
    {
        SCond::Ge(a, b)
    }

    /// `¬c`.
    pub fn not(c: SCond) -> (r: SCond)
        ensures
            r == SCond::Not(Box::new(c)),
    {
        SCond::Not(Box::new(c))
    }

    /// `a ∧ b`.
    pub fn and(a: SCond, b: SCond) -> (r: SCond)
        ensures
            r == SCond::And(Box::new(a), Box::new(b)),
    {
        SCond::And(Box::new(a), Box::new(b))
    }

    /// `a ∨ b`.
    pub fn or(a: SCond, b: SCond) -> (r: SCond)
        ensures
            r == SCond::Or(Box::new(a), Box::new(b)),
    {
        SCond::Or(Box::new(a), Box::new(b))
    }
}

/// The names of the free symbolic inputs of a condition.
pub open spec fn cond_syms(c: SCond) -> Set<Seq<char>>
    decreases c,
{
    match c {
        SCond::True => Set::empty(),
        SCond::Eq(a, b) => expr_syms(a) + expr_syms(b),
        SCond::Lt(a, b) => expr_syms(a) + expr_syms(b),
        SCond::Le(a, b) => expr_syms(a) + expr_syms(b),
        SCond::Gt(a, b) => expr_syms(a) + expr_syms(b),
        SCond::Ge(a, b) => expr_syms(a) + expr_syms(b),
        SCond::Not(x) => cond_syms(*x),
        SCond::And(a, b) => cond_syms(*a) + cond_syms(*b),
        SCond::Or(a, b) => cond_syms(*a) + cond_syms(*b),
    }
}

/// The SMT term of a condition; `None` where it holds a division.
pub open spec fn cond_term(c: SCond) -> Option<Term>
    decreases c,
{
    match c {
        SCond::True => Some(Term::Bool(true)),
        SCond::Eq(a, b) => match (expr_term(a), expr_term(b)) {
            (Some(x), Some(y)) => Some(Term::Eq(Box::new(x), Box::new(y))),
            _ => None,
        },
        SCond::Lt(a, b) => match (expr_term(a), expr_term(b)) {
            (Some(x), Some(y)) => Some(Term::Lt(Box::new(x), Box::new(y))),
            _ => None,
        },
        SCond::Le(a, b) => match (expr_term(a), expr_term(b)) {
            (Some(x), Some(y)) => Some(Term::Le(Box::new(x), Box::new(y))),
            _ => None,
        },
        SCond::Gt(a, b) => match (expr_term(a), expr_term(b)) {
            (Some(x), Some(y)) => Some(Term::Gt(Box::new(x), Box::new(y))),
            _ => None,
        },
        SCond::Ge(a, b) => match (expr_term(a), expr_term(b)) {
            (Some(x), Some(y)) => Some(Term::Ge(Box::new(x), Box::new(y))),
            _ => None,
        },
        SCond::Not(x) => match cond_term(*x) {
            Some(t) => Some(Term::Not(Box::new(t))),
            None => None,
        },
        SCond::And(a, b) => match (cond_term(*a), cond_term(*b)) {
            (Some(x), Some(y)) => Some(Term::And(Box::new(x), Box::new(y))),
            _ => None,
        },
        SCond::Or(a, b) => match (cond_term(*a), cond_term(*b)) {
            (Some(x), Some(y)) => Some(Term::Or(Box::new(x), Box::new(y))),
            _ => None,
        },
    }
}

impl SCond {
    fn collect_syms(&self, out: &mut Vec<String>)
        requires
            forall|i: int, j: int|
                0 <= i < j < old(out)@.len() ==> (#[trigger] old(out)@[i])@ != (#[trigger] old(out)@[j])@,
        ensures
            names_of(final(out)@) == names_of(old(out)@) + cond_syms(*self),
            forall|i: int, j: int|
                0 <= i < j < final(out)@.len() ==> (#[trigger] final(out)@[i])@ != (#[trigger] final(out)@[j])@,
        decreases self,
    {
        match self {
            SCond::True => {
                assert(names_of(out@) + cond_syms(*self) =~= names_of(out@));
            },
            SCond::Eq(a, b) | SCond::Lt(a, b) | SCond::Le(a, b) | SCond::Gt(a, b) | SCond::Ge(a, b) => {
                a.collect_syms(out);
                b.collect_syms(out);
                assert(names_of(old(out)@) + expr_syms(*a) + expr_syms(*b) =~= names_of(old(out)@)
                    + cond_syms(*self));
            },
            SCond::Not(c) => c.collect_syms(out),
            SCond::And(a, b) | SCond::Or(a, b) => {
                a.collect_syms(out);
                b.collect_syms(out);
                assert(names_of(old(out)@) + cond_syms(**a) + cond_syms(**b) =~= names_of(old(out)@)
                    + cond_syms(*self));
            },
        }
    }

    fn to_term(&self) -> (r: Option<Term>)
        ensures
            r == cond_term(*self),
        decreases self,
    {
        match self {
            SCond::True => Some(Term::bool(true)),
            SCond::Eq(a, b) => match (a.to_term(), b.to_term()) {
                (Some(x), Some(y)) => Some(Term::Eq(Box::new(x), Box::new(y))),
                _ => None,
            },
            SCond::Lt(a, b) => match (a.to_term(), b.to_term()) {
                (Some(x), Some(y)) => Some(Term::Lt(Box::new(x), Box::new(y))),
                _ => None,
            },
            SCond::Le(a, b) => match (a.to_term(), b.to_term()) {
                (Some(x), Some(y)) => Some(Term::Le(Box::new(x), Box::new(y))),
                _ => None,
            },
            SCond::Gt(a, b) => match (a.to_term(), b.to_term()) {
                (Some(x), Some(y)) => Some(Term::Gt(Box::new(x), Box::new(y))),
                _ => None,
            },
            SCond::Ge(a, b) => match (a.to_term(), b.to_term()) {
                (Some(x), Some(y)) => Some(Term::Ge(Box::new(x), Box::new(y))),
                _ => None,
            },
            SCond::Not(c) => match c.to_term() {
                Some(t) => Some(Term::Not(Box::new(t))),
                None => None,
            },
            SCond::And(a, b) => match (a.to_term(), b.to_term()) {
                (Some(x), Some(y)) => Some(Term::And(Box::new(x), Box::new(y))),
                _ => None,
            },
            SCond::Or(a, b) => match (a.to_term(), b.to_term()) {
                (Some(x), Some(y)) => Some(Term::Or(Box::new(x), Box::new(y))),
                _ => None,
            },
        }
    }
}

/// A single statement in the symbolic language.
#[derive(Debug, PartialEq)]
pub enum SStmt {
    /// `v = expr`.
    Assign(String, SExpr),
    /// `if (cond) { then } else { els }`.
    If(SCond, Vec<SStmt>, Vec<SStmt>),
    /// A runtime assertion that must hold on every feasible path.
    Assert(SCond),
    /// Narrow the path condition (prune the infeasible branch).
    Assume(SCond),
}

/// The size of a statement: one, plus the sizes of its branches.
pub open spec fn stmt_size(st: SStmt) -> nat
    decreases st,
{
    match st {
        SStmt::If(_, t, e) => 1 + stmts_size(t@) + stmts_size(e@),
        _ => 1,
    }
}

/// The total size of a statement list.
pub open spec fn stmts_size(s: Seq<SStmt>) -> nat
    decreases s,
{
    if s.len() == 0 {
        0
    } else {
        stmt_size(s[0]) + stmts_size(s.subrange(1, s.len() as int))
    }
}

/// The size of a concatenation is the sum of the sizes.
pub proof fn lemma_size_concat(a: Seq<SStmt>, b: Seq<SStmt>)
    ensures
        stmts_size(a + b) == stmts_size(a) + stmts_size(b),
    decreases a.len(),
{
    if a.len() == 0 {
        assert(a + b =~= b);
    } else {
        lemma_size_concat(a.subrange(1, a.len() as int), b);
        assert((a + b)[0] == a[0]);
        assert((a + b).subrange(1, (a + b).len() as int) =~= a.subrange(1, a.len() as int) + b);
    }
}

/// A suffix's size is its first statement's size plus the rest's.
pub proof fn lemma_size_split(s: Seq<SStmt>, i: int)
    requires
        0 <= i < s.len(),
    ensures
        stmts_size(s.subrange(i, s.len() as int)) == stmt_size(s[i]) + stmts_size(
            s.subrange(i + 1, s.len() as int),
        ),
{
    let t = s.subrange(i, s.len() as int);
    assert(t[0] == s[i]);
    assert(t.subrange(1, t.len() as int) =~= s.subrange(i + 1, s.len() as int));
}

/// A suffix is no larger than the whole list.
pub proof fn lemma_size_suffix(s: Seq<SStmt>, i: int)
    requires
        0 <= i <= s.len(),
    ensures
        stmts_size(s.subrange(i, s.len() as int)) <= stmts_size(s),
{
    lemma_size_concat(s.subrange(0, i), s.subrange(i, s.len() as int));
    assert(s.subrange(0, i) + s.subrange(i, s.len() as int) =~= s);
}

impl Clone for SStmt {
    #[verifier::loop_isolation(false)]
    fn clone(&self) -> (r: Self)
        decreases self,
    {
        match self {
            SStmt::Assign(v, e) => SStmt::Assign(v.clone(), e.clone()),
            SStmt::If(c, t, e) => {
                let mut tt: Vec<SStmt> = Vec::new();
                let mut i: usize = 0;
                while i < t.len()
                    decreases t@.len() - i,
                {
                    proof {
                        assert(decreases_to!(*self => self->If_1));
                        assert(decreases_to!(*t => t@));
                        assert(decreases_to!(t@ => t@[i as int]));
                    }
                    tt.push(t[i].clone());
                    i += 1;
                }
                let mut ee: Vec<SStmt> = Vec::new();
                let mut j: usize = 0;
                while j < e.len()
                    decreases e@.len() - j,
                {
                    proof {
                        assert(decreases_to!(*self => self->If_2));
                        assert(decreases_to!(*e => e@));
                        assert(decreases_to!(e@ => e@[j as int]));
                    }
                    ee.push(e[j].clone());
                    j += 1;
                }
                SStmt::If(c.clone(), tt, ee)
            },
            SStmt::Assert(c) => SStmt::Assert(c.clone()),
            SStmt::Assume(c) => SStmt::Assume(c.clone()),
        }
    }
}

impl SStmt {
    /// Build an assignment.
    pub fn assign(v: &'static str, e: SExpr) -> (r: SStmt)
        ensures
            r matches SStmt::Assign(name, x) && name@ == v@ && x == e,
    {
        SStmt::Assign(v.to_owned(), e)
    }

    /// Build a conditional.
    pub fn if_then_else(cond: SCond, then: Vec<SStmt>, els: Vec<SStmt>) -> (r: SStmt)
        ensures
            r == SStmt::If(cond, then, els),
    {
        SStmt::If(cond, then, els)
    }

    /// Build an assertion.
    pub fn asserting(cond: SCond) -> (r: SStmt)
        ensures
            r == SStmt::Assert(cond),
    {
        SStmt::Assert(cond)
    }

    /// Build an assume.
    pub fn assuming(cond: SCond) -> (r: SStmt)
        ensures
            r == SStmt::Assume(cond),
    {
        SStmt::Assume(cond)
    }
}

/// The kind of defect a [`Violation`] reports.
#[derive(Clone, Copy, Debug, PartialEq, Eq, Structural)]
pub enum ViolationKind {
    /// A division by zero is reachable.
    DivByZero,
    /// A runtime assertion can be violated.
    Assertion,
}

/// A detected defect on a concrete feasible path.
#[derive(Debug)]
pub struct Violation {
    /// What kind of defect.
    pub kind: ViolationKind,
    /// The path condition (conjunction of constraints) that witnesses it.
    pub path_condition: Vec<SCond>,
}

/// The result of symbolic execution.
#[derive(Debug)]
pub struct SymReport {
    /// Every defect found across all explored feasible paths.
    pub violations: Vec<Violation>,
    /// The number of distinct feasible paths explored.
    pub paths_explored: usize,
}

/// A violation as its kind and path condition.
pub open spec fn viol_view(v: Violation) -> (ViolationKind, Seq<SCond>) {
    (v.kind, v.path_condition@)
}

/// The views of a list of violations.
pub open spec fn viols_view(s: Seq<Violation>) -> Seq<(ViolationKind, Seq<SCond>)> {
    s.map_values(|v: Violation| viol_view(v))
}

/// The symbolic store: program variable names bound to symbolic values.
/// A later binding of a name shadows an earlier one.
struct Store {
    entries: Vec<(String, SExpr)>,
}

/// The map that a list of bindings denotes (later bindings win).
pub open spec fn store_map(s: Seq<(String, SExpr)>) -> Map<Seq<char>, SExpr>
    decreases s.len(),
{
    if s.len() == 0 {
        Map::empty()
    } else {
        store_map(s.drop_last()).insert(s.last().0@, s.last().1)
    }
}

impl View for Store {
    type V = Map<Seq<char>, SExpr>;

    closed spec fn view(&self) -> Map<Seq<char>, SExpr> {
        store_map(self.entries@)
    }
}

impl Store {
    fn new() -> (r: Store)
        ensures
            r@ == Map::<Seq<char>, SExpr>::empty(),
    {
        Store { entries: Vec::new() }
    }

    fn insert(&mut self, name: &str, value: SExpr)
        ensures
            final(self)@ == old(self)@.insert(name@, value),
    {
        let n = name.to_owned();
        self.entries.push((n, value));
        proof {
            assert(self.entries@.drop_last() == old(self).entries@);
        }
    }

    fn get(&self, name: &str) -> (r: Option<SExpr>)
        ensures
            r == (if self@.contains_key(name@) { Some(self@[name@]) } else { None::<SExpr> }),
    {
        let key = name.to_owned();
        let mut i = self.entries.len();
        proof {
            assert(self.entries@.subrange(0, i as int) == self.entries@);
        }
        while i > 0
            invariant
                0 <= i <= self.entries@.len(),
                key@ == name@,
                store_map(self.entries@).contains_key(name@) == store_map(
                    self.entries@.subrange(0, i as int),
                ).contains_key(name@),
                store_map(self.entries@).contains_key(name@) ==> store_map(self.entries@)[name@]
                    == store_map(self.entries@.subrange(0, i as int))[name@],
            decreases i,
        {
            let ghost pre = self.entries@.subrange(0, i as int);
            proof {
                assert(pre.drop_last() == self.entries@.subrange(0, i - 1));
            }
            if self.entries[i - 1].0 == key {
                return Some(self.entries[i - 1].1.clone());
            }
            i -= 1;
        }
        proof {
            assert(self.entries@.subrange(0, 0) == Seq::<(String, SExpr)>::empty());
        }
        None
    }

    fn clone_store(&self) -> (r: Store)
        ensures
            r@ == self@,
    {
        let mut entries: Vec<(String, SExpr)> = Vec::new();
        let mut i: usize = 0;
        while i < self.entries.len()
            invariant
                0 <= i <= self.entries@.len(),
                entries@ == self.entries@.subrange(0, i as int),
            decreases self.entries@.len() - i,
        {
            let (n, v) = &self.entries[i];
            entries.push((n.clone(), v.clone()));
            i += 1;
        }
        proof {
            assert(entries@ == self.entries@);
        }
        Store { entries }
    }
}

/// Resolve program variables in `e` to their symbolic values in the store.
pub open spec fn subst(e: SExpr, m: Map<Seq<char>, SExpr>) -> SExpr
    decreases e,
{
    match e {
        SExpr::Var(v) => if m.contains_key(v@) {
            m[v@]
        } else {
            SExpr::Var(v)
        },
        SExpr::Const(c) => SExpr::Const(c),
        SExpr::Sym(s) => SExpr::Sym(s),
        SExpr::Add(a, b) => SExpr::Add(Box::new(subst(*a, m)), Box::new(subst(*b, m))),
        SExpr::Sub(a, b) => SExpr::Sub(Box::new(subst(*a, m)), Box::new(subst(*b, m))),
        SExpr::Mul(a, b) => SExpr::Mul(Box::new(subst(*a, m)), Box::new(subst(*b, m))),
        SExpr::Div(a, b) => SExpr::Div(Box::new(subst(*a, m)), Box::new(subst(*b, m))),
        SExpr::Neg(a) => SExpr::Neg(Box::new(subst(*a, m))),
    }
}

/// Evaluate a symbolic expression against the current store, resolving program
/// variables to their symbolic expressions.
fn eval(e: &SExpr, store: &Store) -> (r: SExpr)
    ensures
        r == subst(*e, store@),
    decreases e,
{
    match e {
        SExpr::Var(v) => match store.get(v.as_str()) {
            Some(x) => x,
            None => SExpr::Var(v.clone()),
        },
        SExpr::Const(c) => SExpr::Const(*c),
        SExpr::Sym(s) => SExpr::Sym(s.clone()),
        SExpr::Add(a, b) => SExpr::add(eval(a, store), eval(b, store)),
        SExpr::Sub(a, b) => SExpr::sub(eval(a, store), eval(b, store)),
        SExpr::Mul(a, b) => SExpr::mul(eval(a, store), eval(b, store)),
        SExpr::Div(a, b) => SExpr::div(eval(a, store), eval(b, store)),
        SExpr::Neg(a) => SExpr::Neg(Box::new(eval(a, store))),
    }
}

/// The conjunction `True ∧ pc[0] ∧ ... ∧ pc[n-1]`, nested to the left.
pub open spec fn fold_and(pc: Seq<SCond>) -> SCond
    decreases pc.len(),
{
    if pc.len() == 0 {
        SCond::True
    } else {
        SCond::And(Box::new(fold_and(pc.drop_last())), Box::new(pc.last()))
    }
}

/// The conjunction `pc ∧ extra` that the feasibility check decides.
pub open spec fn conj(pc: Seq<SCond>, extra: SCond) -> SCond {
    SCond::And(Box::new(fold_and(pc)), Box::new(extra))
}

/// Whether `pc ∧ extra` may be satisfiable: the backend does not refute it,
/// or it cannot be expressed (a division in it).
pub open spec fn feasible_spec(pc: Seq<SCond>, extra: SCond) -> bool {
    match cond_term(conj(pc, extra)) {
        Some(t) => spec_check_sat(seq![t]) != SatResult::Unsat,
        None => true,
    }
}

/// The backend does not return on `pc ∧ extra` (see
/// [`crate::smt_lite::check_sat_fails`]).
pub open spec fn feasible_fails(pc: Seq<SCond>, extra: SCond) -> bool {
    match cond_term(conj(pc, extra)) {
        Some(t) => check_sat_fails(seq![t]),
        None => false,
    }
}

fn clone_conds(pc: &[SCond]) -> (r: Vec<SCond>)
    ensures
        r@ == pc@,
{
    let mut r: Vec<SCond> = Vec::new();
    let mut i: usize = 0;
    while i < pc.len()
        invariant
            0 <= i <= pc@.len(),
            r@ == pc@.subrange(0, i as int),
        decreases pc@.len() - i,
    {
        r.push(pc[i].clone());
        i += 1;
    }
    r
}

impl SCond {
    /// Build the conjunction `pc ∧ extra`.
    fn and_conjunction(pc: &[SCond], extra: &SCond) -> (r: SCond)
        ensures
            r == conj(pc@, *extra),
    {
        let mut acc = SCond::True;
        let mut i: usize = 0;
        while i < pc.len()
            invariant
                0 <= i <= pc@.len(),
                acc == fold_and(pc@.subrange(0, i as int)),
            decreases pc@.len() - i,
        {
            proof {
                assert(pc@.subrange(0, i + 1).drop_last() == pc@.subrange(0, i as int));
            }
            acc = SCond::and(acc, pc[i].clone());
            i += 1;
        }
        proof {
            assert(pc@.subrange(0, pc@.len() as int) == pc@);
        }
        SCond::and(acc, extra.clone())
    }
}

/// Is `pc ∧ extra` satisfiable? Uses the SMT backend; an `Unknown` result is
/// treated conservatively as feasible (we cannot prove infeasibility).
fn feasible(pc: &[SCond], extra: &SCond) -> (r: bool)
    requires
        !feasible_fails(pc@, *extra),
    ensures
        r == feasible_spec(pc@, *extra),
{
    let mut syms: Vec<String> = Vec::new();
    let mut i: usize = 0;
    while i < pc.len()
        invariant
            0 <= i <= pc@.len(),
            forall|a: int, b: int|
                0 <= a < b < syms@.len() ==> (#[trigger] syms@[a])@ != (#[trigger] syms@[b])@,
        decreases pc@.len() - i,
    {
        pc[i].collect_syms(&mut syms);
        i += 1;
    }
    extra.collect_syms(&mut syms);
    let mut problem = Problem::new();
    let mut k: usize = 0;
    while k < syms.len()
        invariant
            0 <= k <= syms@.len(),
            problem.spec_assertions() == Seq::<Term>::empty(),
        decreases syms@.len() - k,
    {
        problem.declare_const(syms[k].as_str(), Sort::Int);
        k += 1;
    }
    let conj_c = SCond::and_conjunction(pc, extra);
    let term = match conj_c.to_term() {
        Some(t) => t,
        // Not representable by the ground backend (e.g. a division in the
        // condition) — treat conservatively as feasible.
        None => return true,
    };
    let ghost tv = term;
    problem.assert_term(term);
    proof {
        assert(problem.spec_assertions() =~= seq![tv]);
    }
    match problem.check_sat() {
        SatResult::Unsat => false,
        SatResult::Sat | SatResult::Unknown => true,
    }
}

/// The denominators of the divisions in `e`, outermost first, then those
/// of the left operand, then those of the right.
pub open spec fn divs_of(e: SExpr) -> Seq<SExpr>
    decreases e,
{
    match e {
        SExpr::Const(_) => Seq::empty(),
        SExpr::Sym(_) => Seq::empty(),
        SExpr::Var(_) => Seq::empty(),
        SExpr::Add(a, b) => divs_of(*a) + divs_of(*b),
        SExpr::Sub(a, b) => divs_of(*a) + divs_of(*b),
        SExpr::Mul(a, b) => divs_of(*a) + divs_of(*b),
        SExpr::Div(a, b) => seq![*b] + divs_of(*a) + divs_of(*b),
        SExpr::Neg(a) => divs_of(*a),
    }
}

/// Whether `sub` occurs in `e`: it is `e` itself, or occurs in one of its
/// operands.
pub open spec fn is_subexpr(sub: SExpr, e: SExpr) -> bool
    decreases e,
{
    sub == e || match e {
        SExpr::Const(_) | SExpr::Sym(_) | SExpr::Var(_) => false,
        SExpr::Add(a, b) | SExpr::Sub(a, b) | SExpr::Mul(a, b) | SExpr::Div(a, b) => {
            is_subexpr(sub, *a) || is_subexpr(sub, *b)
        },
        SExpr::Neg(a) => is_subexpr(sub, *a),
    }
}

/// Every division anywhere in an expression has its denominator checked:
/// for each sub-expression `a / d` of `e`, `d` is among `divs_of(e)`.
pub proof fn lemma_divs_complete(e: SExpr, a: SExpr, d: SExpr)
    requires
        is_subexpr(SExpr::Div(Box::new(a), Box::new(d)), e),
    ensures
        divs_of(e).contains(d),
    decreases e,
{
    let target = SExpr::Div(Box::new(a), Box::new(d));
    if target == e {
        assert(divs_of(e)[0] == d);
    } else {
        match e {
            SExpr::Const(_) | SExpr::Sym(_) | SExpr::Var(_) => {},
            SExpr::Add(x, y) | SExpr::Sub(x, y) | SExpr::Mul(x, y) => {
                if is_subexpr(target, *x) {
                    lemma_divs_complete(*x, a, d);
                    let i = choose|i: int| 0 <= i < divs_of(*x).len() && divs_of(*x)[i] == d;
                    assert(divs_of(e)[i] == d);
                } else {
                    lemma_divs_complete(*y, a, d);
                    let i = choose|i: int| 0 <= i < divs_of(*y).len() && divs_of(*y)[i] == d;
                    assert(divs_of(e)[divs_of(*x).len() + i] == d);
                }
            },
            SExpr::Div(x, y) => {
                if is_subexpr(target, *x) {
                    lemma_divs_complete(*x, a, d);
                    let i = choose|i: int| 0 <= i < divs_of(*x).len() && divs_of(*x)[i] == d;
                    assert(divs_of(e)[1 + i] == d);
                } else {
                    lemma_divs_complete(*y, a, d);
                    let i = choose|i: int| 0 <= i < divs_of(*y).len() && divs_of(*y)[i] == d;
                    assert(divs_of(e)[1 + divs_of(*x).len() + i] == d);
                }
            },
            SExpr::Neg(x) => {
                lemma_divs_complete(*x, a, d);
            },
        }
    }
}

/// Only denominators are checked: each entry of `divs_of(e)` is the
/// denominator of some division that occurs in `e`.
pub proof fn lemma_divs_sound(e: SExpr, i: int)
    requires
        0 <= i < divs_of(e).len(),
    ensures
        exists|a: SExpr| #[trigger] is_subexpr(SExpr::Div(Box::new(a), Box::new(divs_of(e)[i])), e),
    decreases e,
{
    let d = divs_of(e)[i];
    match e {
        SExpr::Const(_) | SExpr::Sym(_) | SExpr::Var(_) => {},
        SExpr::Add(x, y) | SExpr::Sub(x, y) | SExpr::Mul(x, y) => {
            let nx = divs_of(*x).len() as int;
            let a = if i < nx {
                lemma_divs_sound(*x, i);
                assert(divs_of(*x)[i] == d);
                choose|a: SExpr| is_subexpr(SExpr::Div(Box::new(a), Box::new(d)), *x)
            } else {
                lemma_divs_sound(*y, i - nx);
                assert(divs_of(*y)[i - nx] == d);
                choose|a: SExpr| is_subexpr(SExpr::Div(Box::new(a), Box::new(d)), *y)
            };
            assert(is_subexpr(SExpr::Div(Box::new(a), Box::new(d)), e));
        },
        SExpr::Div(x, y) => {
            if i == 0 {
                assert(d == *y);
                assert(is_subexpr(SExpr::Div(Box::new(*x), Box::new(d)), e));
            } else {
                let nx = divs_of(*x).len() as int;
                let a = if i - 1 < nx {
                    lemma_divs_sound(*x, i - 1);
                    assert(divs_of(*x)[i - 1] == d);
                    choose|a: SExpr| is_subexpr(SExpr::Div(Box::new(a), Box::new(d)), *x)
                } else {
                    lemma_divs_sound(*y, i - 1 - nx);
                    assert(divs_of(*y)[i - 1 - nx] == d);
                    choose|a: SExpr| is_subexpr(SExpr::Div(Box::new(a), Box::new(d)), *y)
                };
                assert(is_subexpr(SExpr::Div(Box::new(a), Box::new(d)), e));
            }
        },
        SExpr::Neg(x) => {
            lemma_divs_sound(*x, i);
            let a = choose|a: SExpr| is_subexpr(SExpr::Div(Box::new(a), Box::new(d)), *x);
            assert(is_subexpr(SExpr::Div(Box::new(a), Box::new(d)), e));
        },
    }
}

/// What a part of the exploration yields: the violations found, in order,
/// the number of feasible paths completed, and whether the backend fails
/// to return somewhere on the way.
pub struct Outcome {
    pub found: Seq<(ViolationKind, Seq<SCond>)>,
    pub explored: nat,
    pub fails: bool,
}

/// Nothing found, no path completed.
pub open spec fn nothing() -> Outcome {
    Outcome { found: Seq::empty(), explored: 0, fails: false }
}

/// The zero-denominator checks of the first `divs.len()` denominators: each
/// is resolved through the store, and reported where it can be zero on the
/// path.
pub open spec fn div_checks(divs: Seq<SExpr>, store: Map<Seq<char>, SExpr>, pc: Seq<SCond>) -> Outcome
    decreases divs.len(),
{
    if divs.len() == 0 {
        nothing()
    } else {
        let prev = div_checks(divs.drop_last(), store, pc);
        let zero = SCond::Eq(subst(divs.last(), store), SExpr::Const(0));
        let here = if feasible_spec(pc, zero) {
            seq![(ViolationKind::DivByZero, pc.push(zero))]
        } else {
            Seq::empty()
        };
        Outcome { found: prev.found + here, explored: 0, fails: prev.fails || feasible_fails(pc, zero) }
    }
}

/// Symbolic execution of `stmts` from position `i` with the given store and
/// path condition. A conditional runs each feasible branch followed by the
/// rest of the block; an infeasible assumption ends the path; a path that
/// reaches the end counts as explored.
pub open spec fn run_from(
    stmts: Seq<SStmt>,
    i: int,
    store: Map<Seq<char>, SExpr>,
    pc: Seq<SCond>,
) -> Outcome
    decreases stmts_size(stmts.subrange(i, stmts.len() as int)),
{
    if i < 0 || i >= stmts.len() {
        Outcome { found: Seq::empty(), explored: 1, fails: false }
    } else {
        proof {
            lemma_size_split(stmts, i);
        }
        match stmts[i] {
            SStmt::Assign(v, e) => {
                let dc = div_checks(divs_of(e), store, pc);
                let rest = run_from(stmts, i + 1, store.insert(v@, subst(e, store)), pc);
                Outcome { found: dc.found + rest.found, explored: rest.explored, fails: dc.fails || rest.fails }
            },
            SStmt::If(c, t, el) => {
                let cont = stmts.subrange(i + 1, stmts.len() as int);
                let nc = SCond::Not(Box::new(c));
                proof {
                    lemma_size_concat(t@, cont);
                    lemma_size_concat(el@, cont);
                    assert((t@ + cont).subrange(0, (t@ + cont).len() as int) =~= t@ + cont);
                    assert((el@ + cont).subrange(0, (el@ + cont).len() as int) =~= el@ + cont);
                }
                let a = if feasible_spec(pc, c) {
                    run_from(t@ + cont, 0, store, pc.push(c))
                } else {
                    nothing()
                };
                let b = if feasible_spec(pc, nc) {
                    run_from(el@ + cont, 0, store, pc.push(nc))
                } else {
                    nothing()
                };
                Outcome {
                    found: a.found + b.found,
                    explored: a.explored + b.explored,
                    fails: feasible_fails(pc, c) || a.fails || feasible_fails(pc, nc) || b.fails,
                }
            },
            SStmt::Assert(c) => {
                let neg = SCond::Not(Box::new(c));
                let here = if feasible_spec(pc, neg) {
                    seq![(ViolationKind::Assertion, pc.push(neg))]
                } else {
                    Seq::empty()
                };
                let rest = run_from(stmts, i + 1, store, pc);
                Outcome { found: here + rest.found, explored: rest.explored, fails: feasible_fails(pc, neg) || rest.fails }
            },
            SStmt::Assume(c) => {
                if feasible_spec(pc, c) {
                    let rest = run_from(stmts, i + 1, store, pc.push(c));
                    Outcome { found: rest.found, explored: rest.explored, fails: feasible_fails(pc, c) || rest.fails }
                } else {
                    Outcome { found: Seq::empty(), explored: 0, fails: feasible_fails(pc, c) }
                }
            },
        }
    }
}

/// The whole exploration of a program from an empty store.
pub open spec fn spec_run(program: Seq<SStmt>) -> Outcome {
    run_from(program, 0, Map::empty(), Seq::empty())
}

/// Each condition of `pc` was judged feasible together with the ones before
/// it: `pc` is a path the exploration could follow.
pub open spec fn feasible_chain(pc: Seq<SCond>) -> bool {
    forall|k: int| 0 <= k < pc.len() ==> feasible_spec(pc.take(k), #[trigger] pc[k])
}

/// Extending a feasible path by a condition judged feasible with it gives a
/// feasible path.
proof fn lemma_chain_push(pc: Seq<SCond>, x: SCond)
    requires
        feasible_chain(pc),
        feasible_spec(pc, x),
    ensures
        feasible_chain(pc.push(x)),
{
    let q = pc.push(x);
    assert forall|k: int| 0 <= k < q.len() implies feasible_spec(q.take(k), #[trigger] q[k]) by {
        if k < pc.len() {
            assert(q.take(k) =~= pc.take(k));
            assert(q[k] == pc[k]);
        } else {
            assert(q.take(k) =~= pc);
        }
    }
}

/// The path condition of a reported violation ends in the violation: a
/// division's denominator equal to zero, or an assertion's condition negated.
pub open spec fn reports_violation(v: (ViolationKind, Seq<SCond>)) -> bool {
    &&& v.1.len() > 0
    &&& v.0 is DivByZero ==> (v.1.last() matches SCond::Eq(_, SExpr::Const(z)) && z == 0)
    &&& v.0 is Assertion ==> v.1.last() is Not
}

/// Every violation found by zero-denominator checks on a feasible path lies
/// on a feasible path.
proof fn lemma_div_checks_feasible(divs: Seq<SExpr>, store: Map<Seq<char>, SExpr>, pc: Seq<SCond>)
    requires
        feasible_chain(pc),
    ensures
        forall|k: int| 0 <= k < div_checks(divs, store, pc).found.len()
            ==> feasible_chain(#[trigger] div_checks(divs, store, pc).found[k].1) && reports_violation(div_checks(divs, store, pc).found[k]),
    decreases divs.len(),
{
    if divs.len() > 0 {
        lemma_div_checks_feasible(divs.drop_last(), store, pc);
        let zero = SCond::Eq(subst(divs.last(), store), SExpr::Const(0));
        let prev = div_checks(divs.drop_last(), store, pc);
        if feasible_spec(pc, zero) {
            lemma_chain_push(pc, zero);
        }
        let out = div_checks(divs, store, pc);
        assert forall|k: int| 0 <= k < out.found.len() implies feasible_chain(#[trigger] out.found[k].1) && reports_violation(out.found[k]) by {
            if k < prev.found.len() {
                assert(out.found[k] == prev.found[k]);
            }
        }
    }
}

/// Every violation found by exploring `stmts` from position `i` on the
/// feasible path `pc` lies on a feasible path.
proof fn lemma_run_from_feasible(stmts: Seq<SStmt>, i: int, store: Map<Seq<char>, SExpr>, pc: Seq<SCond>)
    requires
        feasible_chain(pc),
    ensures
        forall|k: int| 0 <= k < run_from(stmts, i, store, pc).found.len()
            ==> feasible_chain(#[trigger] run_from(stmts, i, store, pc).found[k].1) && reports_violation(run_from(stmts, i, store, pc).found[k]),
    decreases stmts_size(stmts.subrange(i, stmts.len() as int)),
{
    if 0 <= i < stmts.len() {
        lemma_size_split(stmts, i);
        let out = run_from(stmts, i, store, pc);
        match stmts[i] {
            SStmt::Assign(v, e) => {
                lemma_div_checks_feasible(divs_of(e), store, pc);
                let st2 = store.insert(v@, subst(e, store));
                lemma_run_from_feasible(stmts, i + 1, st2, pc);
                let dc = div_checks(divs_of(e), store, pc);
                let rest = run_from(stmts, i + 1, st2, pc);
                assert forall|k: int| 0 <= k < out.found.len() implies feasible_chain(#[trigger] out.found[k].1) && reports_violation(out.found[k]) by {
                    if k < dc.found.len() {
                        assert(out.found[k] == dc.found[k]);
                    } else {
                        assert(out.found[k] == rest.found[k - dc.found.len()]);
                    }
                }
            },
            SStmt::If(c, t, el) => {
                let cont = stmts.subrange(i + 1, stmts.len() as int);
                let nc = SCond::Not(Box::new(c));
                lemma_size_concat(t@, cont);
                lemma_size_concat(el@, cont);
                assert((t@ + cont).subrange(0, (t@ + cont).len() as int) =~= t@ + cont);
                assert((el@ + cont).subrange(0, (el@ + cont).len() as int) =~= el@ + cont);
                let a = if feasible_spec(pc, c) {
                    run_from(t@ + cont, 0, store, pc.push(c))
                } else {
                    nothing()
                };
                let b = if feasible_spec(pc, nc) {
                    run_from(el@ + cont, 0, store, pc.push(nc))
                } else {
                    nothing()
                };
                if feasible_spec(pc, c) {
                    lemma_chain_push(pc, c);
                    lemma_run_from_feasible(t@ + cont, 0, store, pc.push(c));
                }
                if feasible_spec(pc, nc) {
                    lemma_chain_push(pc, nc);
                    lemma_run_from_feasible(el@ + cont, 0, store, pc.push(nc));
                }
                assert forall|k: int| 0 <= k < out.found.len() implies feasible_chain(#[trigger] out.found[k].1) && reports_violation(out.found[k]) by {
                    if k < a.found.len() {
                        assert(out.found[k] == a.found[k]);
                    } else {
                        assert(out.found[k] == b.found[k - a.found.len()]);
                    }
                }
            },
            SStmt::Assert(c) => {
                let neg = SCond::Not(Box::new(c));
                if feasible_spec(pc, neg) {
                    lemma_chain_push(pc, neg);
                }
                lemma_run_from_feasible(stmts, i + 1, store, pc);
                let here = if feasible_spec(pc, neg) {
                    seq![(ViolationKind::Assertion, pc.push(neg))]
                } else {
                    Seq::empty()
                };
                let rest = run_from(stmts, i + 1, store, pc);
                assert forall|k: int| 0 <= k < out.found.len() implies feasible_chain(#[trigger] out.found[k].1) && reports_violation(out.found[k]) by {
                    if k < here.len() {
                        assert(out.found[k] == here[k]);
                    } else {
                        assert(out.found[k] == rest.found[k - here.len()]);
                    }
                }
            },
            SStmt::Assume(c) => {
                if feasible_spec(pc, c) {
                    lemma_chain_push(pc, c);
                    lemma_run_from_feasible(stmts, i + 1, store, pc.push(c));
                    assert(out.found == run_from(stmts, i + 1, store, pc.push(c)).found);
                } else {
                    assert(out.found.len() == 0);
                }
            },
        }
    } else {
        assert(run_from(stmts, i, store, pc).found.len() == 0);
    }
}

/// Every violation that the exploration of a program reports lies on a
/// feasible path (each condition of its path condition was judged
/// satisfiable together with the ones before it), and that path ends in the
/// violation itself: a zero denominator for a division by zero, the
/// negated condition for a failed assertion.
pub proof fn lemma_violations_on_feasible_paths(program: Seq<SStmt>)
    ensures
        forall|k: int| 0 <= k < spec_run(program).found.len() ==> feasible_chain(#[trigger] spec_run(program).found[k].1) && reports_violation(spec_run(program).found[k]),
{
    assert(feasible_chain(Seq::<SCond>::empty()));
    lemma_run_from_feasible(program, 0, Map::empty(), Seq::empty());
}

fn record_div(denom: &SExpr, pc: &[SCond], violations: &mut Vec<Violation>)
    requires
        !feasible_fails(pc@, SCond::Eq(*denom, SExpr::Const(0))),
    ensures
        viols_view(final(violations)@) == viols_view(old(violations)@) + (if feasible_spec(
            pc@,
            SCond::Eq(*denom, SExpr::Const(0)),
        ) {
            seq![(ViolationKind::DivByZero, pc@.push(SCond::Eq(*denom, SExpr::Const(0))))]
        } else {
            Seq::empty()
        }),
{
    let zero = SCond::Eq(denom.clone(), SExpr::Const(0));
    if feasible(pc, &zero) {
        let mut path = clone_conds(pc);
        let ghost z = zero;
        path.push(zero);
        let ghost before = violations@;
        violations.push(Violation { kind: ViolationKind::DivByZero, path_condition: path });
        proof {
            assert(viols_view(violations@) =~= viols_view(before) + seq![(ViolationKind::DivByZero, pc@.push(z))]);
        }
    } else {
        proof {
            assert(viols_view(violations@) =~= viols_view(old(violations)@) + Seq::empty());
        }
    }
}

/// Collect the denominator of every `Div` node in an expression tree. A nested
/// division like `(10/x) + 1` must have both (here, just the `x`) denominators
/// checked for zero, not only the outermost one.
fn collect_divs(e: &SExpr, out: &mut Vec<SExpr>)
    ensures
        final(out)@ == old(out)@ + divs_of(*e),
    decreases e,
{
    match e {
        SExpr::Const(_) | SExpr::Sym(_) | SExpr::Var(_) => {
            assert(out@ =~= out@ + divs_of(*e));
        },
        SExpr::Add(a, b) | SExpr::Sub(a, b) | SExpr::Mul(a, b) => {
            collect_divs(a, out);
            collect_divs(b, out);
            assert(old(out)@ + divs_of(**a) + divs_of(**b) =~= old(out)@ + divs_of(*e));
        },
        SExpr::Div(a, d) => {
            out.push((**d).clone());
            collect_divs(a, out);
            collect_divs(d, out);
            assert(old(out)@.push(**d) + divs_of(**a) + divs_of(**d) =~= old(out)@ + divs_of(*e));
        },
        SExpr::Neg(a) => collect_divs(a, out),
    }
}

proof fn lemma_div_checks_prefix(divs: Seq<SExpr>, store: Map<Seq<char>, SExpr>, pc: Seq<SCond>, k: int)
    requires
        0 <= k <= divs.len(),
        !div_checks(divs, store, pc).fails,
    ensures
        !div_checks(divs.subrange(0, k), store, pc).fails,
    decreases divs.len(),
{
    if k < divs.len() {
        lemma_div_checks_prefix(divs.drop_last(), store, pc, k);
        assert(divs.drop_last().subrange(0, k) =~= divs.subrange(0, k));
    } else {
        assert(divs.subrange(0, k) =~= divs);
    }
}

/// The statements that references point to.
pub open spec fn deref_all(s: Seq<&SStmt>) -> Seq<SStmt> {
    s.map_values(|r: &SStmt| *r)
}

/// The references to a block's statements followed by those of the rest of
/// the current block after position `idx`.
fn branch_with_rest<'a>(branch: &'a Vec<SStmt>, stmts: &[&'a SStmt], idx: usize) -> (r: Vec<&'a SStmt>)
    requires
        idx < stmts@.len(),
    ensures
        deref_all(r@) == branch@ + deref_all(stmts@).subrange(idx + 1, stmts@.len() as int),
{
    let mut r: Vec<&'a SStmt> = Vec::new();
    let mut k: usize = 0;
    while k < branch.len()
        invariant
            0 <= k <= branch@.len(),
            r@.len() == k,
            deref_all(r@) == branch@.subrange(0, k as int),
        decreases branch@.len() - k,
    {
        let ghost r0 = r@;
        r.push(&branch[k]);
        proof {
            assert(r@ == r0.push(&branch@[k as int]));
            assert forall|x: int| 0 <= x < k + 1 implies #[trigger] deref_all(r@)[x] == branch@[x] by {
                if x < k {
                    assert(r@[x] == r0[x]);
                    assert(deref_all(r0)[x] == branch@.subrange(0, k as int)[x]);
                }
            }
            assert(deref_all(r@) =~= branch@.subrange(0, k + 1));
        }
        k += 1;
    }
    proof {
        assert(branch@.subrange(0, branch@.len() as int) =~= branch@);
        assert(deref_all(stmts@).subrange(idx + 1, idx + 1) =~= Seq::<SStmt>::empty());
        assert(branch@ + Seq::<SStmt>::empty() =~= branch@);
    }
    let n = stmts.len();
    let mut j: usize = idx + 1;
    while j < n
        invariant
            idx + 1 <= j <= n,
            n == stmts@.len(),
            r@.len() == branch@.len() + j - idx - 1,
            deref_all(r@) == branch@ + deref_all(stmts@).subrange(idx + 1, j as int),
        decreases n - j,
    {
        let ghost r0 = r@;
        r.push(stmts[j]);
        proof {
            assert(r@ == r0.push(stmts@[j as int]));
            let target = branch@ + deref_all(stmts@).subrange(idx + 1, j + 1);
            assert forall|x: int| 0 <= x < r@.len() implies #[trigger] deref_all(r@)[x] == target[x] by {
                if x < r0.len() {
                    assert(r@[x] == r0[x]);
                    assert(deref_all(r0)[x] == (branch@ + deref_all(stmts@).subrange(idx + 1, j as int))[x]);
                }
            }
            assert(deref_all(r@) =~= target);
        }
        j += 1;
    }
    r
}

proof fn lemma_outcome_concat(
    v0: Seq<(ViolationKind, Seq<SCond>)>,
    a: Seq<(ViolationKind, Seq<SCond>)>,
    b: Seq<(ViolationKind, Seq<SCond>)>,
)
    ensures
        v0 + (a + b) == (v0 + a) + b,
{
    assert(v0 + (a + b) =~= (v0 + a) + b);
}

#[verifier::rlimit(50)]
#[verifier::spinoff_prover]
fn exec(
    stmts: &[&SStmt],
    store: &Store,
    pc: &[SCond],
    violations: &mut Vec<Violation>,
    explored: &mut usize,
)
    requires
        !run_from(deref_all(stmts@), 0, store@, pc@).fails,
        *old(explored) + run_from(deref_all(stmts@), 0, store@, pc@).explored <= usize::MAX,
    ensures
        viols_view(final(violations)@) == viols_view(old(violations)@) + run_from(
            deref_all(stmts@),
            0,
            store@,
            pc@,
        ).found,
        *final(explored) == *old(explored) + run_from(deref_all(stmts@), 0, store@, pc@).explored,
    decreases stmts_size(deref_all(stmts@)),
{
    let ghost all = deref_all(stmts@);
    let ghost total = run_from(all, 0, store@, pc@);
    let mut st = store.clone_store();
    let mut cur = clone_conds(pc);
    let mut idx: usize = 0;
    while idx < stmts.len()
        invariant
            0 <= idx <= all.len(),
            all == deref_all(stmts@),
            all.len() == stmts@.len(),
            viols_view(violations@) + run_from(all, idx as int, st@, cur@).found == viols_view(
                old(violations)@,
            ) + total.found,
            *explored + run_from(all, idx as int, st@, cur@).explored == *old(explored) + total.explored,
            !run_from(all, idx as int, st@, cur@).fails,
            *old(explored) + total.explored <= usize::MAX,
            stmts_size(all) == stmts_size(deref_all(stmts@)),
            total == run_from(all, 0, store@, pc@),
        decreases all.len() - idx,
    {
        let stmt: &SStmt = stmts[idx];
        proof {
            assert(*stmt == all[idx as int]);
            lemma_size_split(all, idx as int);
        }
        let ghost outc = run_from(all, idx as int, st@, cur@);
        let ghost v0 = viols_view(violations@);
        match stmt {
            SStmt::Assign(v, e) => {
                let ev = eval(e, &st);
                let mut divs: Vec<SExpr> = Vec::new();
                collect_divs(e, &mut divs);
                proof {
                    assert(divs@ =~= divs_of(*e));
                }
                let ghost dc = div_checks(divs@, st@, cur@);
                let mut k: usize = 0;
                while k < divs.len()
                    invariant
                        0 <= k <= divs@.len(),
                        dc == div_checks(divs@, st@, cur@),
                        !dc.fails,
                        viols_view(violations@) == v0 + div_checks(divs@.subrange(0, k as int), st@, cur@).found,
                    decreases divs@.len() - k,
                {
                    let d_eval = eval(&divs[k], &st);
                    proof {
                        lemma_div_checks_prefix(divs@, st@, cur@, k + 1);
                        assert(divs@.subrange(0, k + 1).drop_last() =~= divs@.subrange(0, k as int));
                        assert(divs@.subrange(0, k + 1).last() == divs@[k as int]);
                    }
                    record_div(&d_eval, cur.as_slice(), violations);
                    proof {
                        let pre = div_checks(divs@.subrange(0, k as int), st@, cur@).found;
                        let zero = SCond::Eq(subst(divs@[k as int], st@), SExpr::Const(0));
                        let here = if feasible_spec(cur@, zero) {
                            seq![(ViolationKind::DivByZero, cur@.push(zero))]
                        } else {
                            Seq::empty()
                        };
                        lemma_outcome_concat(v0, pre, here);
                    }
                    k += 1;
                }
                proof {
                    assert(divs@.subrange(0, divs@.len() as int) =~= divs@);
                }
                let ghost rest = run_from(all, idx + 1, st@.insert(v@, subst(*e, st@)), cur@);
                st.insert(v.as_str(), ev);
                proof {
                    lemma_outcome_concat(v0, dc.found, rest.found);
                }
            },
            SStmt::If(cond, then_b, else_b) => {
                // The statements after this `If` in the enclosing block must run
                // on *both* branches, so concatenate the continuation into each.
                let ghost cont = all.subrange(idx + 1, all.len() as int);
                let ghost nc = SCond::Not(Box::new(*cond));
                proof {
                    lemma_size_suffix(all, idx as int);
                    lemma_size_concat(then_b@, cont);
                    lemma_size_concat(else_b@, cont);
                    assert((then_b@ + cont).subrange(0, (then_b@ + cont).len() as int) =~= then_b@ + cont);
                    assert((else_b@ + cont).subrange(0, (else_b@ + cont).len() as int) =~= else_b@ + cont);
                }
                let ghost a = if feasible_spec(cur@, *cond) {
                    run_from(then_b@ + cont, 0, st@, cur@.push(*cond))
                } else {
                    nothing()
                };
                let ghost b = if feasible_spec(cur@, nc) {
                    run_from(else_b@ + cont, 0, st@, cur@.push(nc))
                } else {
                    nothing()
                };
                if feasible(cur.as_slice(), cond) {
                    let tb = branch_with_rest(then_b, stmts, idx);
                    let mut p = clone_conds(cur.as_slice());
                    p.push(cond.clone());
                    exec(tb.as_slice(), &st, p.as_slice(), violations, explored);
                }
                let ghost v1 = viols_view(violations@);
                let not_cond = SCond::not(cond.clone());
                if feasible(cur.as_slice(), &not_cond) {
                    let eb = branch_with_rest(else_b, stmts, idx);
                    let mut p = clone_conds(cur.as_slice());
                    p.push(not_cond);
                    exec(eb.as_slice(), &st, p.as_slice(), violations, explored);
                }
                proof {
                    if !feasible_spec(cur@, *cond) {
                        assert(v1 =~= v0 + a.found);
                    }
                    if !feasible_spec(cur@, nc) {
                        assert(viols_view(violations@) =~= v1 + b.found);
                    }
                    lemma_outcome_concat(v0, a.found, b.found);
                }
                // Both branches already include the continuation; stop here.
                return;
            },
            SStmt::Assert(cond) => {
                let neg = SCond::not(cond.clone());
                let ghost negv = neg;
                if feasible(cur.as_slice(), &neg) {
                    let mut path = clone_conds(cur.as_slice());
                    path.push(neg);
                    violations.push(Violation { kind: ViolationKind::Assertion, path_condition: path });
                    proof {
                        assert(viols_view(violations@) =~= v0 + seq![(ViolationKind::Assertion, cur@.push(negv))]);
                        lemma_outcome_concat(
                            v0,
                            seq![(ViolationKind::Assertion, cur@.push(negv))],
                            run_from(all, idx + 1, st@, cur@).found,
                        );
                    }
                } else {
                    proof {
                        assert(Seq::<(ViolationKind, Seq<SCond>)>::empty() + run_from(all, idx + 1, st@, cur@).found
                            =~= run_from(all, idx + 1, st@, cur@).found);
                    }
                }
            },
            SStmt::Assume(cond) => {
                if feasible(cur.as_slice(), cond) {
                    cur.push(cond.clone());
                } else {
                    // This path is infeasible; stop exploring it.
                    proof {
                        assert(v0 + Seq::<(ViolationKind, Seq<SCond>)>::empty() =~= v0);
                        assert(all[idx as int] matches SStmt::Assume(c) && c == *cond);
                        assert(!feasible_spec(cur@, *cond));
                        assert(outc.explored == 0);
                        assert(outc.found == Seq::<(ViolationKind, Seq<SCond>)>::empty());
                    }
                    return;
                }
            },
        }
        idx += 1;
    }
    proof {
        assert(viols_view(violations@) + Seq::<(ViolationKind, Seq<SCond>)>::empty() =~= viols_view(violations@));
    }
    *explored += 1;
}

/// Symbolically execute `program` from an empty store, returning all detected
/// defects and the number of feasible paths explored: exactly what
/// [`spec_run`] describes. The backend must return on every feasibility
/// check of the exploration, and the path count must fit in a `usize`.
pub fn run(program: &[SStmt]) -> (r: SymReport)
    requires
        !spec_run(program@).fails,
        spec_run(program@).explored <= usize::MAX,
    ensures
        viols_view(r.violations@) == spec_run(program@).found,
        r.paths_explored == spec_run(program@).explored,
{
    let mut refs: Vec<&SStmt> = Vec::new();
    let mut i: usize = 0;
    while i < program.len()
        invariant
            0 <= i <= program@.len(),
            refs@.len() == i,
            deref_all(refs@) == program@.subrange(0, i as int),
        decreases program@.len() - i,
    {
        let ghost r0 = refs@;
        refs.push(&program[i]);
        proof {
            assert forall|x: int| 0 <= x < i + 1 implies #[trigger] deref_all(refs@)[x] == program@[x] by {
                if x < i {
                    assert(refs@[x] == r0[x]);
                    assert(deref_all(r0)[x] == program@.subrange(0, i as int)[x]);
                }
            }
            assert(deref_all(refs@) =~= program@.subrange(0, i + 1));
        }
        i += 1;
    }
    proof {
        assert(program@.subrange(0, program@.len() as int) =~= program@);
    }
    let mut violations: Vec<Violation> = Vec::new();
    let mut explored: usize = 0;
    let store = Store::new();
    let pc: Vec<SCond> = Vec::new();
    proof {
        assert(pc@ =~= Seq::<SCond>::empty());
    }
    exec(refs.as_slice(), &store, pc.as_slice(), &mut violations, &mut explored);
    proof {
        assert(viols_view(Seq::<Violation>::empty()) + spec_run(program@).found =~= spec_run(program@).found);
    }
    SymReport { violations, paths_explored: explored }
}

} // verus!
