//! Proofs — trees built from inference rules.
use vstd::prelude::*;
use crate::proof_ast::formula::Formula;
use crate::proof_ast::term::Term;

verus! {

/// A justification for a proof step.
#[derive(Debug, PartialEq, Eq)]
pub enum Rule {
    /// An axiom schema, identified by name.
    Axiom(String),
    /// An assumption introduced under a hypothesis.
    Assumption,
    /// *Modus ponens*: from `p → q` and `p`, conclude `q`.
    ModusPonens,
    /// *Universal introduction*: from `f`, conclude `∀ x. f` (with binder).
    ForallIntro(String),
    /// *Universal elimination*: from `∀ x. f`, instantiate `x` with `t`.
    ForallElim(Term),
    /// *Conjunction introduction*: from `p` and `q`, conclude `p ∧ q`.
    AndIntro,
    /// A user-named rule referencing the conclusions it derives from.
    Named(String),
}

impl Clone for Rule {
    fn clone(&self) -> (r: Self) {
        match self {
            Rule::Axiom(n) => Rule::Axiom(n.clone()),
            Rule::Assumption => Rule::Assumption,
            Rule::ModusPonens => Rule::ModusPonens,
            Rule::ForallIntro(x) => Rule::ForallIntro(x.clone()),
            Rule::ForallElim(t) => Rule::ForallElim(t.clone()),
            Rule::AndIntro => Rule::AndIntro,
            Rule::Named(n) => Rule::Named(n.clone()),
        }
    }
}

/// A proof tree: a formula together with how it was derived.
#[derive(Debug, PartialEq, Eq)]
pub struct Proof {
    /// The formula this node concludes.
    pub conclusion: Formula,
    /// The rule applied at this node.
    pub rule: Rule,
    /// The sub-proofs this node depends on.
    pub premises: Vec<Proof>,
}

impl Clone for Proof {
    #[verifier::loop_isolation(false)]
    fn clone(&self) -> (r: Self)
        decreases self,
    {
        let mut premises: Vec<Proof> = Vec::new();
        let mut i: usize = 0;
        while i < self.premises.len()
            decreases self.premises@.len() - i,
        {
            proof {
                assert(decreases_to!(*self => self.premises));
                assert(decreases_to!(self.premises => self.premises@));
                assert(decreases_to!(self.premises@ => self.premises@[i as int]));
            }
            premises.push(self.premises[i].clone());
            i += 1;
        }
        Proof { conclusion: self.conclusion.clone(), rule: self.rule.clone(), premises }
    }
}

/// The number of nodes of a proof tree.
pub open spec fn proof_size(p: Proof) -> nat
    decreases p,
{
    1 + proofs_size(p.premises@)
}

/// The total number of nodes of a list of proof trees.
pub open spec fn proofs_size(s: Seq<Proof>) -> nat
    decreases s,
{
    if s.len() == 0 {
        0
    } else {
        proof_size(s[0]) + proofs_size(s.subrange(1, s.len() as int))
    }
}

/// The depth of a proof tree: one more than its deepest premise.
pub open spec fn proof_depth(p: Proof) -> nat
    decreases p,
{
    1 + proofs_depth(p.premises@)
}

/// The greatest depth in a list of proof trees (`0` for none).
pub open spec fn proofs_depth(s: Seq<Proof>) -> nat
    decreases s,
{
    if s.len() == 0 {
        0
    } else {
        let d = proof_depth(s[0]);
        let rest = proofs_depth(s.subrange(1, s.len() as int));
        if d >= rest {
            d
        } else {
            rest
        }
    }
}

/// Every concluded formula of a proof tree, in pre-order.
pub open spec fn proof_conclusions(p: Proof) -> Seq<Formula>
    decreases p,
{
    seq![p.conclusion] + proofs_conclusions(p.premises@)
}

/// The concluded formulas of a list of proof trees, each in pre-order.
pub open spec fn proofs_conclusions(s: Seq<Proof>) -> Seq<Formula>
    decreases s,
{
    if s.len() == 0 {
        Seq::empty()
    } else {
        proof_conclusions(s[0]) + proofs_conclusions(s.subrange(1, s.len() as int))
    }
}

proof fn lemma_proofs_split<T>(s: Seq<T>, i: int)
    requires
        0 <= i < s.len(),
    ensures
        s.subrange(i, s.len() as int)[0] == s[i],
        s.subrange(i, s.len() as int).subrange(1, s.len() - i) == s.subrange(i + 1, s.len() as int),
{
    assert(s.subrange(i, s.len() as int).subrange(1, s.len() - i) =~= s.subrange(i + 1, s.len() as int));
}

/// The greatest depth in a list bounds the depth of each tree in it, and is
/// reached by one of them (or is 0 for an empty list).
pub proof fn lemma_proofs_depth_max(s: Seq<Proof>)
    ensures
        forall|i: int| 0 <= i < s.len() ==> proof_depth(#[trigger] s[i]) <= proofs_depth(s),
        s.len() == 0 ==> proofs_depth(s) == 0,
        s.len() > 0 ==> exists|i: int| 0 <= i < s.len() && proofs_depth(s) == proof_depth(#[trigger] s[i]),
    decreases s.len(),
{
    if s.len() > 0 {
        let rest = s.subrange(1, s.len() as int);
        lemma_proofs_depth_max(rest);
        assert forall|i: int| 0 <= i < s.len() implies proof_depth(#[trigger] s[i]) <= proofs_depth(s) by {
            if i > 0 {
                assert(s[i] == rest[i - 1]);
            }
        }
        if rest.len() > 0 && proofs_depth(s) != proof_depth(s[0]) {
            let j = choose|j: int| 0 <= j < rest.len() && proofs_depth(rest) == proof_depth(#[trigger] rest[j]);
            assert(s[j + 1] == rest[j]);
            assert(proofs_depth(s) == proof_depth(s[j + 1]));
        } else {
            assert(proofs_depth(s) == proof_depth(s[0]));
        }
    }
}

/// A proof tree is one deeper than its deepest premise: deeper than every
/// premise, and exactly one deeper than some premise (a leaf has depth 1).
pub proof fn lemma_depth_law(p: Proof)
    ensures
        proof_depth(p) >= 1,
        forall|i: int| 0 <= i < p.premises@.len() ==> proof_depth(#[trigger] p.premises@[i]) + 1 <= proof_depth(p),
        p.premises@.len() == 0 ==> proof_depth(p) == 1,
        p.premises@.len() > 0 ==> exists|i: int| 0 <= i < p.premises@.len()
            && proof_depth(p) == proof_depth(#[trigger] p.premises@[i]) + 1,
{
    lemma_proofs_depth_max(p.premises@);
}

/// Every node's conclusion is collected once: a tree of `n` nodes has `n`
/// conclusions.
pub proof fn lemma_conclusions_count(p: Proof)
    ensures
        proof_conclusions(p).len() == proof_size(p),
    decreases p,
{
    lemma_conclusions_count_all(p.premises@);
}

/// The list form of [`lemma_conclusions_count`].
pub proof fn lemma_conclusions_count_all(s: Seq<Proof>)
    ensures
        proofs_conclusions(s).len() == proofs_size(s),
    decreases s,
{
    if s.len() > 0 {
        lemma_conclusions_count(s[0]);
        lemma_conclusions_count_all(s.subrange(1, s.len() as int));
    }
}

/// A tree is never deeper than it is large.
pub proof fn lemma_depth_at_most_size(p: Proof)
    ensures
        1 <= proof_depth(p) <= proof_size(p),
    decreases p,
{
    lemma_depth_at_most_size_all(p.premises@);
}

/// The list form of [`lemma_depth_at_most_size`].
pub proof fn lemma_depth_at_most_size_all(s: Seq<Proof>)
    ensures
        proofs_depth(s) <= proofs_size(s),
    decreases s,
{
    if s.len() > 0 {
        lemma_depth_at_most_size(s[0]);
        lemma_depth_at_most_size_all(s.subrange(1, s.len() as int));
    }
}

impl Proof {
    /// A leaf proof justified by an axiom.
    pub fn axiomatic(name: &str, conclusion: Formula) -> (r: Self)
        ensures
            r.conclusion == conclusion,
            r.rule matches Rule::Axiom(n) && n@ == name@,
            r.premises@ == Seq::<Proof>::empty(),
    {
        Proof { conclusion, rule: Rule::Axiom(name.to_owned()), premises: Vec::new() }
    }

    /// A leaf proof justified by an assumption.
    pub fn assumption(conclusion: Formula) -> (r: Self)
        ensures
            r.conclusion == conclusion,
            r.rule == Rule::Assumption,
            r.premises@ == Seq::<Proof>::empty(),
    {
        Proof { conclusion, rule: Rule::Assumption, premises: Vec::new() }
    }

    /// Build a proof step from a rule and its premise sub-proofs.
    pub fn step(conclusion: Formula, rule: Rule, premises: Vec<Proof>) -> (r: Self)
        ensures
            r.conclusion == conclusion,
            r.rule == rule,
            r.premises == premises,
    {
        Proof { conclusion, rule, premises }
    }

    /// Total number of nodes in the proof tree.
    #[verifier::loop_isolation(false)]
    pub fn size(&self) -> (r: usize)
        requires
            proof_size(*self) <= usize::MAX,
        ensures
            r == proof_size(*self),
        decreases self,
    {
        let ps = &self.premises;
        let mut total: usize = 0;
        let mut i: usize = 0;
        proof {
            assert(ps@.subrange(0, ps@.len() as int) =~= ps@);
        }
        while i < ps.len()
            invariant
                0 <= i <= ps@.len(),
                total + proofs_size(ps@.subrange(i as int, ps@.len() as int)) == proofs_size(ps@),
            decreases ps@.len() - i,
        {
            proof {
                assert(decreases_to!(*self => self.premises));
                assert(decreases_to!(self.premises => self.premises@));
                assert(decreases_to!(self.premises@ => self.premises@[i as int]));
                lemma_proofs_split(ps@, i as int);
                lemma_size_premise(ps@, i as int);
            }
            let s = ps[i].size();
            total = total + s;
            i += 1;
        }
        proof {
            assert(ps@.subrange(i as int, ps@.len() as int) =~= Seq::<Proof>::empty());
        }
        1 + total
    }

    /// Depth of the proof tree (longest premise chain).
    #[verifier::loop_isolation(false)]
    pub fn depth(&self) -> (r: usize)
        requires
            proof_size(*self) <= usize::MAX,
        ensures
            r == proof_depth(*self),
        decreases self,
    {
        proof {
            lemma_depth_at_most_size(*self);
            lemma_depth_at_most_size_all(self.premises@);
        }
        let ps = &self.premises;
        let mut max_child: usize = 0;
        let mut i: usize = ps.len();
        proof {
            assert(ps@.subrange(i as int, ps@.len() as int) =~= Seq::<Proof>::empty());
        }
        while i > 0
            invariant
                0 <= i <= ps@.len(),
                max_child == proofs_depth(ps@.subrange(i as int, ps@.len() as int)),
            decreases i,
        {
            proof {
                assert(decreases_to!(*self => self.premises));
                assert(decreases_to!(self.premises => self.premises@));
                assert(decreases_to!(self.premises@ => self.premises@[i - 1]));
                lemma_proofs_split(ps@, i - 1);
                lemma_size_premise(ps@, i - 1);
            }
            let d = ps[i - 1].depth();
            if d >= max_child {
                max_child = d;
            }
            i -= 1;
        }
        proof {
            assert(ps@.subrange(0, ps@.len() as int) =~= ps@);
        }
        1 + max_child
    }

    /// Collect every concluded formula, in pre-order.
    pub fn conclusions(&self) -> (r: Vec<&Formula>)
        ensures
            r@.map_values(|f: &Formula| *f) == proof_conclusions(*self),
    {
        let mut out: Vec<&Formula> = Vec::new();
        self.collect_conclusions(&mut out);
        proof {
            assert(Seq::<Formula>::empty() + proof_conclusions(*self) =~= proof_conclusions(*self));
        }
        out
    }

    #[verifier::loop_isolation(false)]
    fn collect_conclusions<'a>(&'a self, out: &mut Vec<&'a Formula>)
        ensures
            final(out)@.map_values(|f: &Formula| *f) == old(out)@.map_values(|f: &Formula| *f)
                + proof_conclusions(*self),
        decreases self,
    {
        let ghost o0 = out@.map_values(|f: &Formula| *f);
        let ghost before = out@;
        out.push(&self.conclusion);
        proof {
            assert(out@.map_values(|f: &Formula| *f) =~= o0.push(self.conclusion));
        }
        let ps = &self.premises;
        let mut i: usize = 0;
        proof {
            assert(ps@.subrange(0, ps@.len() as int) =~= ps@);
            assert(o0.push(self.conclusion) + proofs_conclusions(ps@) =~= o0 + proof_conclusions(*self));
        }
        while i < ps.len()
            invariant
                0 <= i <= ps@.len(),
                out@.map_values(|f: &Formula| *f) + proofs_conclusions(
                    ps@.subrange(i as int, ps@.len() as int),
                ) == o0 + proof_conclusions(*self),
            decreases ps@.len() - i,
        {
            proof {
                assert(decreases_to!(*self => self.premises));
                assert(decreases_to!(self.premises => self.premises@));
                assert(decreases_to!(self.premises@ => self.premises@[i as int]));
                lemma_proofs_split(ps@, i as int);
            }
            let ghost mid = out@.map_values(|f: &Formula| *f);
            ps[i].collect_conclusions(out);
            proof {
                let tail = ps@.subrange(i + 1, ps@.len() as int);
                assert(out@.map_values(|f: &Formula| *f) + proofs_conclusions(tail) =~= mid
                    + proofs_conclusions(ps@.subrange(i as int, ps@.len() as int)));
            }
            i += 1;
        }
        proof {
            assert(ps@.subrange(i as int, ps@.len() as int) =~= Seq::<Proof>::empty());
            assert(out@.map_values(|f: &Formula| *f) + Seq::<Formula>::empty() =~= out@.map_values(
                |f: &Formula| *f,
            ));
        }
    }
}

proof fn lemma_size_premise(s: Seq<Proof>, i: int)
    requires
        0 <= i < s.len(),
    ensures
        proof_size(s[i]) <= proofs_size(s),
    decreases s.len(),
{
    if i > 0 {
        lemma_size_premise(s.subrange(1, s.len() as int), i - 1);
        assert(s.subrange(1, s.len() as int)[i - 1] == s[i]);
    }
}

} // verus!
