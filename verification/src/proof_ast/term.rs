//! Terms — the objects a proof talks about.
use vstd::prelude::*;
use crate::proof_ast::names::NameSet;

verus! {

/// A named identifier (variable or constant name).
pub type Ident = String;

/// A term in the object language.
#[derive(Debug, PartialEq, Eq, Hash)]
pub enum Term {
    /// A variable, referenced by name.
    Var(Ident),
    /// A constant symbol.
    Const(Ident),
    /// Function application `f(t1, ..., tn)`.
    App(Ident, Vec<Term>),
    /// A numeric literal.
    Num(i128),
    /// Lambda abstraction `λ x. body`.
    Lambda(Ident, Box<Term>),
}

/// The free variables of a term: the names that occur as variables, except
/// where a lambda binds them.
pub open spec fn term_vars(t: Term) -> Set<Seq<char>>
    decreases t,
{
    match t {
        Term::Var(v) => set![v@],
        Term::Const(_) => Set::empty(),
        Term::Num(_) => Set::empty(),
        Term::App(_, args) => terms_vars(args@),
        Term::Lambda(x, body) => term_vars(*body).remove(x@),
    }
}

/// The free variables of a list of terms.
pub open spec fn terms_vars(s: Seq<Term>) -> Set<Seq<char>>
    decreases s,
{
    if s.len() == 0 {
        Set::empty()
    } else {
        term_vars(s[0]) + terms_vars(s.subrange(1, s.len() as int))
    }
}

impl Clone for Term {
    #[verifier::loop_isolation(false)]
    fn clone(&self) -> (r: Self)
        decreases self,
    {
        match self {
            Term::Var(v) => Term::Var(v.clone()),
            Term::Const(c) => Term::Const(c.clone()),
            Term::App(f, args) => {
                let mut out: Vec<Term> = Vec::new();
                let mut i: usize = 0;
                while i < args.len()
                    decreases args@.len() - i,
                {
                    proof {
                        assert(decreases_to!(*self => self->App_1));
                        assert(decreases_to!(*args => args@));
                        assert(decreases_to!(args@ => args@[i as int]));
                    }
                    out.push(args[i].clone());
                    i += 1;
                }
                Term::App(f.clone(), out)
            },
            Term::Num(n) => Term::Num(*n),
            Term::Lambda(x, body) => Term::Lambda(x.clone(), Box::new(Term::clone(body))),
        }
    }
}

impl Term {
    /// Construct a variable term.
    pub fn var(name: &str) -> (r: Self)
        ensures
            r matches Term::Var(v) && v@ == name@,
    {
        Term::Var(name.to_owned())
    }

    /// Construct a constant term.
    pub fn const_(name: &str) -> (r: Self)
        ensures
            r matches Term::Const(c) && c@ == name@,
    {
        Term::Const(name.to_owned())
    }

    /// Construct a function application.
    pub fn app(name: &str, args: Vec<Term>) -> (r: Self)
        ensures
            r matches Term::App(f, a) && f@ == name@ && a@ == args@,
    {
        Term::App(name.to_owned(), args)
    }

    /// Collect the free variables of this term.
    pub fn free_vars(&self) -> (r: NameSet)
        ensures
            r@ == term_vars(*self),
    {
        let mut out = NameSet::new();
        self.collect_free_vars(&mut out);
        proof {
            assert(Set::<Seq<char>>::empty() + term_vars(*self) =~= term_vars(*self));
        }
        out
    }

    #[verifier::loop_isolation(false)]
    fn collect_free_vars(&self, out: &mut NameSet)
        ensures
            final(out)@ == old(out)@ + term_vars(*self),
        decreases self,
    {
        match self {
            Term::Var(v) => {
                out.insert(v.as_str());
                assert(old(out)@.insert(v@) =~= old(out)@ + set![v@]);
            },
            Term::Const(_) | Term::Num(_) => {
                assert(out@ + term_vars(*self) =~= out@);
            },
            Term::App(_, args) => {
                let mut i: usize = 0;
                assert(args@.subrange(0, args@.len() as int) =~= args@);
                while i < args.len()
                    invariant
                        0 <= i <= args@.len(),
                        out@ + terms_vars(args@.subrange(i as int, args@.len() as int)) == old(out)@
                            + terms_vars(args@),
                    decreases args@.len() - i,
                {
                    proof {
                        assert(decreases_to!(*self => self->App_1));
                        assert(decreases_to!(*args => args@));
                        assert(decreases_to!(args@ => args@[i as int]));
                        let rest = args@.subrange(i as int, args@.len() as int);
                        assert(rest[0] == args@[i as int]);
                        assert(rest.subrange(1, rest.len() as int) =~= args@.subrange(
                            i + 1,
                            args@.len() as int,
                        ));
                    }
                    let ghost before = out@;
                    args[i].collect_free_vars(out);
                    proof {
                        let rest = args@.subrange(i as int, args@.len() as int);
                        let tail = args@.subrange(i + 1, args@.len() as int);
                        assert(terms_vars(rest) == term_vars(args@[i as int]) + terms_vars(tail));
                        assert(out@ + terms_vars(tail) =~= before + terms_vars(rest));
                    }
                    i += 1;
                }
                proof {
                    assert(args@.subrange(0, args@.len() as int) =~= args@);
                    assert(args@.subrange(args@.len() as int, args@.len() as int) =~= Seq::<Term>::empty());
                    assert(out@ + Set::<Seq<char>>::empty() =~= out@);
                }
            },
            Term::Lambda(bound, body) => {
                let mut inner = NameSet::new();
                body.collect_free_vars(&mut inner);
                proof {
                    assert(Set::<Seq<char>>::empty() + term_vars(**body) =~= term_vars(**body));
                }
                let ns = inner.names();
                let ghost nv = ns@.map_values(|s: String| s@);
                let ghost start = out@;
                let mut i: usize = 0;
                while i < ns.len()
                    invariant
                        0 <= i <= ns@.len(),
                        nv == ns@.map_values(|s: String| s@),
                        nv.to_set() == term_vars(**body),
                        out@ == start + nv.subrange(0, i as int).to_set().remove(bound@),
                    decreases ns@.len() - i,
                {
                    let ghost before = out@;
                    let same: bool = ns[i] == *bound;
                    proof { assert(same == (ns@[i as int]@ == bound@)); }
                    if !same {
                        out.insert(ns[i].as_str());
                    }
                    proof {
                        assert(nv[i as int] == ns@[i as int]@);
                        let a = nv.subrange(0, i as int);
                        assert(nv.subrange(0, i + 1) =~= a.push(nv[i as int]));
                        a.lemma_push_to_set_commute(nv[i as int]);
                        assert(out@ =~= start + nv.subrange(0, i + 1).to_set().remove(bound@));
                    }
                    i += 1;
                }
                proof {
                    assert(nv.subrange(0, ns@.len() as int) =~= nv);
                }
            },
        }
    }
}

} // verus!
