//! Formulas — the statements a proof reasons about.
use vstd::prelude::*;
use crate::proof_ast::names::NameSet;
use crate::proof_ast::term::Term;

verus! {

/// A predicate symbol applied to terms, or a built-in connective tree.
#[derive(Debug, PartialEq, Eq, Hash)]
pub enum Formula {
    /// Predicate `P(t1, ..., tn)`.
    Pred(String, Vec<Term>),
    /// `⊥` — falsity.
    False,
    /// `⊤` — truth.
    True,
    /// Logical negation `¬ f`.
    Not(Box<Formula>),
    /// Conjunction `f1 ∧ f2`.
    And(Box<Formula>, Box<Formula>),
    /// Disjunction `f1 ∨ f2`.
    Or(Box<Formula>, Box<Formula>),
    /// Implication `f1 → f2`.
    Impl(Box<Formula>, Box<Formula>),
    /// Universal quantification `∀ x. f`.
    Forall(String, Box<Formula>),
    /// Existential quantification `∃ x. f`.
    Exists(String, Box<Formula>),
}

/// The predicate symbols used in a formula.
pub open spec fn formula_preds(f: Formula) -> Set<Seq<char>>
    decreases f,
{
    match f {
        Formula::Pred(p, _) => set![p@],
        Formula::False => Set::empty(),
        Formula::True => Set::empty(),
        Formula::Not(g) => formula_preds(*g),
        Formula::Forall(_, g) => formula_preds(*g),
        Formula::Exists(_, g) => formula_preds(*g),
        Formula::And(a, b) => formula_preds(*a) + formula_preds(*b),
        Formula::Or(a, b) => formula_preds(*a) + formula_preds(*b),
        Formula::Impl(a, b) => formula_preds(*a) + formula_preds(*b),
    }
}

fn clone_terms(args: &Vec<Term>) -> (r: Vec<Term>)
    ensures
        r@.len() == args@.len(),
{
    let mut out: Vec<Term> = Vec::new();
    let mut i: usize = 0;
    while i < args.len()
        invariant
            0 <= i <= args@.len(),
            out@.len() == i,
        decreases args@.len() - i,
    {
        out.push(args[i].clone());
        i += 1;
    }
    out
}

impl Clone for Formula {
    fn clone(&self) -> (r: Self)
        decreases self,
    {
        match self {
            Formula::Pred(p, args) => Formula::Pred(p.clone(), clone_terms(args)),
            Formula::False => Formula::False,
            Formula::True => Formula::True,
            Formula::Not(g) => Formula::Not(Box::new(Formula::clone(g))),
            Formula::And(a, b) => Formula::And(Box::new(Formula::clone(a)), Box::new(Formula::clone(b))),
            Formula::Or(a, b) => Formula::Or(Box::new(Formula::clone(a)), Box::new(Formula::clone(b))),
            Formula::Impl(a, b) => Formula::Impl(Box::new(Formula::clone(a)), Box::new(Formula::clone(b))),
            Formula::Forall(x, g) => Formula::Forall(x.clone(), Box::new(Formula::clone(g))),
            Formula::Exists(x, g) => Formula::Exists(x.clone(), Box::new(Formula::clone(g))),
        }
    }
}

impl Formula {
    /// Construct a predicate formula.
    pub fn pred(name: &str, args: Vec<Term>) -> (r: Self)
        ensures
            r matches Formula::Pred(p, a) && p@ == name@ && a@ == args@,
    {
        Formula::Pred(name.to_owned(), args)
    }

    /// Conjoin with another formula.
    pub fn and(self, other: Formula) -> (r: Self)
        ensures
            r == Formula::And(Box::new(self), Box::new(other)),
    {
        Formula::And(Box::new(self), Box::new(other))
    }

    /// Disjoin with another formula.
    pub fn or(self, other: Formula) -> (r: Self)
        ensures
            r == Formula::Or(Box::new(self), Box::new(other)),
    {
        Formula::Or(Box::new(self), Box::new(other))
    }

    /// Implication into another formula.
    pub fn implies(self, other: Formula) -> (r: Self)
        ensures
            r == Formula::Impl(Box::new(self), Box::new(other)),
    {
        Formula::Impl(Box::new(self), Box::new(other))
    }

    /// Universal quantification over `var`.
    pub fn for_all(self, var: &str) -> (r: Self)
        ensures
            r matches Formula::Forall(x, g) && x@ == var@ && *g == self,
    {
        Formula::Forall(var.to_owned(), Box::new(self))
    }

    /// Collect all predicate symbols used in this formula.
    pub fn predicates(&self) -> (r: NameSet)
        ensures
            r@ == formula_preds(*self),
    {
        let mut out = NameSet::new();
        self.collect_predicates(&mut out);
        proof {
            assert(Set::<Seq<char>>::empty() + formula_preds(*self) =~= formula_preds(*self));
        }
        out
    }

    fn collect_predicates(&self, out: &mut NameSet)
        ensures
            final(out)@ == old(out)@ + formula_preds(*self),
        decreases self,
    {
        match self {
            Formula::Pred(p, _) => {
                out.insert(p.as_str());
                assert(old(out)@.insert(p@) =~= old(out)@ + set![p@]);
            },
            Formula::False | Formula::True => {
                assert(out@ + formula_preds(*self) =~= out@);
            },
            Formula::Not(f) | Formula::Forall(_, f) | Formula::Exists(_, f) => f.collect_predicates(out),
            Formula::And(a, b) | Formula::Or(a, b) | Formula::Impl(a, b) => {
                a.collect_predicates(out);
                b.collect_predicates(out);
                assert(old(out)@ + formula_preds(**a) + formula_preds(**b) =~= old(out)@ + formula_preds(
                    *self,
                ));
            },
        }
    }
}

impl core::ops::Not for Formula {
    type Output = Formula;

    fn not(self) -> (r: Formula) {
        Formula::Not(Box::new(self))
    }
}

impl vstd::std_specs::ops::NotSpecImpl for Formula {
    open spec fn obeys_not_spec() -> bool {
        true
    }

    open spec fn not_req(self) -> bool {
        true
    }

    open spec fn not_spec(self) -> Formula {
        Formula::Not(Box::new(self))
    }
}

} // verus!
