//! Lightweight SMT bridge.
//!
//! Build a typed problem, serialize it to SMT-LIB 2, and decide it with the
//! built-in tiers: a ground evaluator, then (for problems with free
//! variables) the boolean abstraction of [`crate::bool_abstract`].
use vstd::prelude::*;
use crate::bool_abstract::{self, abstraction, spec_decide, dimacs_satisfiable, lemma_abstraction_sound};

verus! {

/// The characters of a decimal digit `d < 10`.
pub open spec fn digit_char(d: nat) -> char {
    (48 + d) as char
}

/// Decimal digits of a natural number, most significant first, no leading
/// zeros (`0` is rendered as a single digit).
pub open spec fn digits(n: nat) -> Seq<char>
    decreases n,
{
    if n < 10 {
        seq![digit_char(n)]
    } else {
        digits(n / 10).push(digit_char(n % 10))
    }
}

/// Decimal rendering of an integer, with a leading `-` when negative.
pub open spec fn decimal(n: int) -> Seq<char> {
    if n < 0 {
        seq!['-'] + digits((-n) as nat)
    } else {
        digits(n as nat)
    }
}

/// An integer as an SMT-LIB 2 term: numerals are non-negative, so a negative
/// value is written as the unary minus of its magnitude.
pub open spec fn numeral(n: int) -> Seq<char> {
    if n < 0 {
        "(- "@ + digits((-n) as nat) + ")"@
    } else {
        digits(n as nat)
    }
}

/// The one-character text of a decimal digit.
fn digit_str(d: u64) -> (r: &'static str)
    requires
        d < 10,
    ensures
        r@ == seq![digit_char(d as nat)],
{
    proof {
        reveal_strlit("0");
        reveal_strlit("1");
        reveal_strlit("2");
        reveal_strlit("3");
        reveal_strlit("4");
        reveal_strlit("5");
        reveal_strlit("6");
        reveal_strlit("7");
        reveal_strlit("8");
        reveal_strlit("9");
    }
    if d == 0 { "0" } else if d == 1 { "1" } else if d == 2 { "2" } else if d == 3 { "3" } else if d == 4 { "4" } else if d == 5 { "5" } else if d == 6 { "6" } else if d == 7 { "7" } else if d == 8 { "8" } else { "9" }
}

/// The decimal digits of `n`.
pub(crate) fn digits_string(n: u64) -> (r: String)
    ensures
        r@ == digits(n as nat),
    decreases n,
{
    if n < 10 {
        String::from_str(digit_str(n))
    } else {
        let mut s = digits_string(n / 10);
        s.append(digit_str(n % 10));
        s
    }
}

/// The SMT-LIB 2 numeral term of an `i64`.
fn numeral_string(x: i64) -> (r: String)
    ensures
        r@ == numeral(x as int),
{
    if x < 0 {
        let m: u64 = if x == i64::MIN { 9223372036854775808u64 } else { (-x) as u64 };
        let mut s = String::from_str("(- ");
        let d = digits_string(m);
        s.append(d.as_str());
        s.append(")");
        proof {
            reveal_strlit("(- ");
            reveal_strlit(")");
        }
        s
    } else {
        digits_string(x as u64)
    }
}

/// A sort (value type) in the SMT universe.
#[derive(Debug, Clone, Copy, PartialEq, Eq, Hash)]
pub enum Sort {
    /// Boolean sort.
    Bool,
    /// Integer sort.
    Int,
    /// Bit-vector sort of the given width in bits.
    BitVec(u32),
}

impl Sort {
    /// The SMT-LIB 2 identifier of the sort.
    pub open spec fn spec_smtlib2(self) -> Seq<char> {
        match self {
            Sort::Bool => "Bool"@,
            Sort::Int => "Int"@,
            Sort::BitVec(w) => "(_ BitVec "@ + decimal(w as int) + ")"@,
        }
    }

    /// Render the sort as an SMT-LIB 2 identifier.
    pub fn to_smtlib2(&self) -> (r: String)
        ensures
            r@ == self.spec_smtlib2(),
    {
        match self {
            Sort::Bool => String::from_str("Bool"),
            Sort::Int => String::from_str("Int"),
            Sort::BitVec(w) => {
                let mut s = String::from_str("(_ BitVec ");
                let d = digits_string(*w as u64);
                s.append(d.as_str());
                s.append(")");
                s
            },
        }
    }
}

/// A value produced by evaluation.
#[derive(Debug, Clone, Copy, PartialEq, Eq, Structural)]
pub enum Value {
    /// A boolean value.
    Bool(bool),
    /// An integer value.
    Int(i64),
}

/// A term in the SMT expression language.
///
/// Well-typing is the caller's responsibility (as in SMT-LIB 2); the built-in
/// evaluator returns `None` (unknown) for ill-typed combinations.
#[derive(Debug, PartialEq, Eq, Hash)]
pub enum Term {
    /// Boolean constant.
    Bool(bool),
    /// Integer constant.
    Int(i64),
    /// Named variable (must be declared in the surrounding problem).
    Var(String),
    /// Logical negation.
    Not(Box<Term>),
    /// Logical conjunction.
    And(Box<Term>, Box<Term>),
    /// Logical disjunction.
    Or(Box<Term>, Box<Term>),
    /// Logical implication.
    Implies(Box<Term>, Box<Term>),
    /// Equality.
    Eq(Box<Term>, Box<Term>),
    /// Arithmetic negation.
    Neg(Box<Term>),
    /// Addition.
    Add(Box<Term>, Box<Term>),
    /// Subtraction.
    Sub(Box<Term>, Box<Term>),
    /// Multiplication.
    Mul(Box<Term>, Box<Term>),
    /// Less-than (integer).
    Lt(Box<Term>, Box<Term>),
    /// Less-than-or-equal (integer).
    Le(Box<Term>, Box<Term>),
    /// Greater-than (integer).
    Gt(Box<Term>, Box<Term>),
    /// Greater-than-or-equal (integer).
    Ge(Box<Term>, Box<Term>),
    /// If-then-else: `ite(cond, a, b)`.
    Ite(Box<Term>, Box<Term>, Box<Term>),
}

/// A model: variable names bound to values.  A later binding of a name
/// shadows an earlier one.
pub struct Model {
    entries: Vec<(String, Value)>,
}

/// The map that a list of bindings denotes (later bindings win).
pub open spec fn bindings_map(s: Seq<(String, Value)>) -> Map<Seq<char>, Value>
    decreases s.len(),
{
    if s.len() == 0 {
        Map::empty()
    } else {
        bindings_map(s.drop_last()).insert(s.last().0@, s.last().1)
    }
}

impl View for Model {
    type V = Map<Seq<char>, Value>;

    closed spec fn view(&self) -> Map<Seq<char>, Value> {
        bindings_map(self.entries@)
    }
}

impl Model {
    /// An empty model.
    pub fn new() -> (r: Model)
        ensures
            r@ == Map::<Seq<char>, Value>::empty(),
    {
        Model { entries: Vec::new() }
    }

    /// Bind `name` to `value`, replacing any earlier binding of `name`.
    pub fn insert(&mut self, name: &str, value: Value)
        ensures
            final(self)@ == old(self)@.insert(name@, value),
    {
        let n = name.to_owned();
        self.entries.push((n, value));
        proof {
            assert(self.entries@.drop_last() == old(self).entries@);
        }
    }

    /// The value bound to `name`, if any.
    pub fn get(&self, name: &str) -> (r: Option<Value>)
        ensures
            r == (if self@.contains_key(name@) { Some(self@[name@]) } else { None::<Value> }),
    {
        let key = name.to_owned();
        let mut i = self.entries.len();
        proof {
            assert(self.entries@.subrange(0, i as int) == self.entries@);
        }
        while i > 0
            invariant
                0 <= i <= self.entries@.len(),
                key@ == name@,
                bindings_map(self.entries@).contains_key(name@) == bindings_map(self.entries@.subrange(0, i as int)).contains_key(name@),
                bindings_map(self.entries@).contains_key(name@) ==> bindings_map(self.entries@)[name@] == bindings_map(self.entries@.subrange(0, i as int))[name@],
            decreases i,
        {
            let ghost pre = self.entries@.subrange(0, i as int);
            proof {
                assert(pre.drop_last() == self.entries@.subrange(0, i - 1));
            }
            if self.entries[i - 1].0 == key {
                return Some(self.entries[i - 1].1);
            }
            i -= 1;
        }
        proof {
            assert(self.entries@.subrange(0, 0) == Seq::<(String, Value)>::empty());
        }
        None
    }
}

/// Evaluation of a term in a model, following the built-in evaluator:
/// `None` when a variable is unbound or the term is ill-typed.  Integer
/// results are reduced to `i64`; where that reduction changes the exact
/// value, [`eval_overflows`] holds and the evaluator does not return.
pub open spec fn eval_term(t: Term, m: Map<Seq<char>, Value>) -> Option<Value>
    decreases t,
{
    match t {
        Term::Bool(b) => Some(Value::Bool(b)),
        Term::Int(i) => Some(Value::Int(i)),
        Term::Var(v) => if m.contains_key(v@) { Some(m[v@]) } else { None },
        Term::Not(x) => match eval_term(*x, m) {
            Some(Value::Bool(b)) => Some(Value::Bool(!b)),
            _ => None,
        },
        Term::And(a, b) => match (eval_term(*a, m), eval_term(*b, m)) {
            (Some(Value::Bool(x)), Some(Value::Bool(y))) => Some(Value::Bool(x && y)),
            _ => None,
        },
        Term::Or(a, b) => match (eval_term(*a, m), eval_term(*b, m)) {
            (Some(Value::Bool(x)), Some(Value::Bool(y))) => Some(Value::Bool(x || y)),
            _ => None,
        },
        Term::Implies(a, b) => match (eval_term(*a, m), eval_term(*b, m)) {
            (Some(Value::Bool(x)), Some(Value::Bool(y))) => Some(Value::Bool(!x || y)),
            _ => None,
        },
        Term::Eq(a, b) => match (eval_term(*a, m), eval_term(*b, m)) {
            (Some(Value::Bool(x)), Some(Value::Bool(y))) => Some(Value::Bool(x == y)),
            (Some(Value::Int(x)), Some(Value::Int(y))) => Some(Value::Bool(x == y)),
            _ => None,
        },
        Term::Neg(x) => match eval_term(*x, m) {
            Some(Value::Int(i)) => Some(Value::Int((-i) as i64)),
            _ => None,
        },
        Term::Add(a, b) => match (eval_term(*a, m), eval_term(*b, m)) {
            (Some(Value::Int(x)), Some(Value::Int(y))) => Some(Value::Int((x + y) as i64)),
            _ => None,
        },
        Term::Sub(a, b) => match (eval_term(*a, m), eval_term(*b, m)) {
            (Some(Value::Int(x)), Some(Value::Int(y))) => Some(Value::Int((x - y) as i64)),
            _ => None,
        },
        Term::Mul(a, b) => match (eval_term(*a, m), eval_term(*b, m)) {
            (Some(Value::Int(x)), Some(Value::Int(y))) => Some(Value::Int((x * y) as i64)),
            _ => None,
        },
        Term::Lt(a, b) => match (eval_term(*a, m), eval_term(*b, m)) {
            (Some(Value::Int(x)), Some(Value::Int(y))) => Some(Value::Bool(x < y)),
            _ => None,
        },
        Term::Le(a, b) => match (eval_term(*a, m), eval_term(*b, m)) {
            (Some(Value::Int(x)), Some(Value::Int(y))) => Some(Value::Bool(x <= y)),
            _ => None,
        },
        Term::Gt(a, b) => match (eval_term(*a, m), eval_term(*b, m)) {
            (Some(Value::Int(x)), Some(Value::Int(y))) => Some(Value::Bool(x > y)),
            _ => None,
        },
        Term::Ge(a, b) => match (eval_term(*a, m), eval_term(*b, m)) {
            (Some(Value::Int(x)), Some(Value::Int(y))) => Some(Value::Bool(x >= y)),
            _ => None,
        },
        Term::Ite(c, a, b) => match eval_term(*c, m) {
            Some(Value::Bool(true)) => eval_term(*a, m),
            Some(Value::Bool(false)) => eval_term(*b, m),
            _ => None,
        },
    }
}

/// The integer comparisons agree with one another in every model: `a <= b`
/// is `a < b` or `a = b`, is `b >= a`, and is the negation of `a > b`;
/// `a < b` is `b > a` and the negation of `a >= b`.  So `a <= a` is true
/// and `a < a` false for every integer-valued `a`.
pub proof fn lemma_comparisons_agree(a: Term, b: Term, m: Map<Seq<char>, Value>)
    ensures
        eval_term(Term::Le(Box::new(a), Box::new(b)), m) == eval_term(
            Term::Or(
                Box::new(Term::Lt(Box::new(a), Box::new(b))),
                Box::new(Term::Eq(Box::new(a), Box::new(b))),
            ),
            m,
        ),
        eval_term(Term::Le(Box::new(a), Box::new(b)), m) == eval_term(Term::Ge(Box::new(b), Box::new(a)), m),
        eval_term(Term::Le(Box::new(a), Box::new(b)), m) == eval_term(
            Term::Not(Box::new(Term::Gt(Box::new(a), Box::new(b)))),
            m,
        ),
        eval_term(Term::Lt(Box::new(a), Box::new(b)), m) == eval_term(Term::Gt(Box::new(b), Box::new(a)), m),
        eval_term(Term::Lt(Box::new(a), Box::new(b)), m) == eval_term(
            Term::Not(Box::new(Term::Ge(Box::new(a), Box::new(b)))),
            m,
        ),
        is_int_val(eval_term(a, m)) ==> eval_term(Term::Le(Box::new(a), Box::new(a)), m) == Some(Value::Bool(true)),
        is_int_val(eval_term(a, m)) ==> eval_term(Term::Lt(Box::new(a), Box::new(a)), m) == Some(Value::Bool(false)),
{
    let ge = Term::Ge(Box::new(a), Box::new(b));
    let gt = Term::Gt(Box::new(a), Box::new(b));
    let lt = Term::Lt(Box::new(a), Box::new(b));
    let eq = Term::Eq(Box::new(a), Box::new(b));
    assert(eval_term(Term::Or(Box::new(lt), Box::new(eq)), m) == match (eval_term(lt, m), eval_term(eq, m)) {
        (Some(Value::Bool(x)), Some(Value::Bool(y))) => Some(Value::Bool(x || y)),
        _ => None,
    });
    assert(eval_term(Term::Not(Box::new(gt)), m) == match eval_term(gt, m) {
        Some(Value::Bool(v)) => Some(Value::Bool(!v)),
        _ => None,
    });
    assert(eval_term(Term::Not(Box::new(ge)), m) == match eval_term(ge, m) {
        Some(Value::Bool(v)) => Some(Value::Bool(!v)),
        _ => None,
    });
}

/// `t` evaluates to a boolean.
pub open spec fn is_bool_val(r: Option<Value>) -> bool {
    r matches Some(Value::Bool(_))
}

/// `t` evaluates to an integer.
pub open spec fn is_int_val(r: Option<Value>) -> bool {
    r matches Some(Value::Int(_))
}

/// The integer a result holds (meaningful when [`is_int_val`]).
pub open spec fn int_of(r: Option<Value>) -> int {
    match r {
        Some(Value::Int(i)) => i as int,
        _ => 0,
    }
}

/// The exact integer result leaves the `i64` range.
pub open spec fn out_of_i64(x: int) -> bool {
    x < i64::MIN || x > i64::MAX
}

/// Evaluating `t` in `m` overflows `i64` arithmetic (which panics), in the
/// order the evaluator visits sub-terms: a binary operator evaluates its
/// left operand, then (only if that produced a value of the kind it needs)
/// its right operand; `ite` evaluates only the branch its condition selects.
pub open spec fn eval_overflows(t: Term, m: Map<Seq<char>, Value>) -> bool
    decreases t,
{
    match t {
        Term::Bool(_) | Term::Int(_) | Term::Var(_) => false,
        Term::Not(x) => eval_overflows(*x, m),
        Term::And(a, b) | Term::Or(a, b) | Term::Implies(a, b) =>
            eval_overflows(*a, m) || (is_bool_val(eval_term(*a, m)) && eval_overflows(*b, m)),
        Term::Eq(a, b) => eval_overflows(*a, m) || (eval_term(*a, m) is Some && eval_overflows(*b, m)),
        Term::Neg(x) => eval_overflows(*x, m) || (is_int_val(eval_term(*x, m)) && out_of_i64(-int_of(eval_term(*x, m)))),
        Term::Add(a, b) => eval_overflows(*a, m) || (is_int_val(eval_term(*a, m)) && (eval_overflows(*b, m)
            || (is_int_val(eval_term(*b, m)) && out_of_i64(int_of(eval_term(*a, m)) + int_of(eval_term(*b, m)))))),
        Term::Sub(a, b) => eval_overflows(*a, m) || (is_int_val(eval_term(*a, m)) && (eval_overflows(*b, m)
            || (is_int_val(eval_term(*b, m)) && out_of_i64(int_of(eval_term(*a, m)) - int_of(eval_term(*b, m)))))),
        Term::Mul(a, b) => eval_overflows(*a, m) || (is_int_val(eval_term(*a, m)) && (eval_overflows(*b, m)
            || (is_int_val(eval_term(*b, m)) && out_of_i64(int_of(eval_term(*a, m)) * int_of(eval_term(*b, m)))))),
        Term::Lt(a, b) | Term::Le(a, b) | Term::Gt(a, b) | Term::Ge(a, b) =>
            eval_overflows(*a, m) || (is_int_val(eval_term(*a, m)) && eval_overflows(*b, m)),
        Term::Ite(c, a, b) => eval_overflows(*c, m) || match eval_term(*c, m) {
            Some(Value::Bool(true)) => eval_overflows(*a, m),
            Some(Value::Bool(false)) => eval_overflows(*b, m),
            _ => false,
        },
    }
}

impl core::ops::Add for Term {
    type Output = Term;

    fn add(self, other: Term) -> (r: Term) {
        Term::Add(Box::new(self), Box::new(other))
    }
}

impl vstd::std_specs::ops::AddSpecImpl for Term {
    open spec fn obeys_add_spec() -> bool {
        true
    }

    open spec fn add_req(self, rhs: Term) -> bool {
        true
    }

    open spec fn add_spec(self, rhs: Term) -> Term {
        Term::Add(Box::new(self), Box::new(rhs))
    }
}

impl core::ops::Sub for Term {
    type Output = Term;

    fn sub(self, other: Term) -> (r: Term) {
        Term::Sub(Box::new(self), Box::new(other))
    }
}

impl vstd::std_specs::ops::SubSpecImpl for Term {
    open spec fn obeys_sub_spec() -> bool {
        true
    }

    open spec fn sub_req(self, rhs: Term) -> bool {
        true
    }

    open spec fn sub_spec(self, rhs: Term) -> Term {
        Term::Sub(Box::new(self), Box::new(rhs))
    }
}

impl core::ops::Mul for Term {
    type Output = Term;

    fn mul(self, other: Term) -> (r: Term) {
        Term::Mul(Box::new(self), Box::new(other))
    }
}

impl vstd::std_specs::ops::MulSpecImpl for Term {
    open spec fn obeys_mul_spec() -> bool {
        true
    }

    open spec fn mul_req(self, rhs: Term) -> bool {
        true
    }

    open spec fn mul_spec(self, rhs: Term) -> Term {
        Term::Mul(Box::new(self), Box::new(rhs))
    }
}

impl core::ops::Not for Term {
    type Output = Term;

    fn not(self) -> (r: Term) {
        Term::Not(Box::new(self))
    }
}

impl vstd::std_specs::ops::NotSpecImpl for Term {
    open spec fn obeys_not_spec() -> bool {
        true
    }

    open spec fn not_req(self) -> bool {
        true
    }

    open spec fn not_spec(self) -> Term {
        Term::Not(Box::new(self))
    }
}

impl core::ops::Neg for Term {
    type Output = Term;

    fn neg(self) -> (r: Term) {
        Term::Neg(Box::new(self))
    }
}

impl vstd::std_specs::ops::NegSpecImpl for Term {
    open spec fn obeys_neg_spec() -> bool {
        true
    }

    open spec fn neg_req(self) -> bool {
        true
    }

    open spec fn neg_spec(self) -> Term {
        Term::Neg(Box::new(self))
    }
}

/// The SMT-LIB 2 rendering of a term.
pub open spec fn term_smtlib2(t: Term) -> Seq<char>
    decreases t,
{
    match t {
        Term::Bool(true) => "true"@,
        Term::Bool(false) => "false"@,
        Term::Int(i) => numeral(i as int),
        Term::Var(v) => v@,
        Term::Not(x) => "(not "@ + term_smtlib2(*x) + ")"@,
        Term::Neg(x) => "(- "@ + term_smtlib2(*x) + ")"@,
        Term::And(a, b) => "(and "@ + term_smtlib2(*a) + " "@ + term_smtlib2(*b) + ")"@,
        Term::Or(a, b) => "(or "@ + term_smtlib2(*a) + " "@ + term_smtlib2(*b) + ")"@,
        Term::Implies(a, b) => "(=> "@ + term_smtlib2(*a) + " "@ + term_smtlib2(*b) + ")"@,
        Term::Eq(a, b) => "(= "@ + term_smtlib2(*a) + " "@ + term_smtlib2(*b) + ")"@,
        Term::Add(a, b) => "(+ "@ + term_smtlib2(*a) + " "@ + term_smtlib2(*b) + ")"@,
        Term::Sub(a, b) => "(- "@ + term_smtlib2(*a) + " "@ + term_smtlib2(*b) + ")"@,
        Term::Mul(a, b) => "(* "@ + term_smtlib2(*a) + " "@ + term_smtlib2(*b) + ")"@,
        Term::Lt(a, b) => "(< "@ + term_smtlib2(*a) + " "@ + term_smtlib2(*b) + ")"@,
        Term::Le(a, b) => "(<= "@ + term_smtlib2(*a) + " "@ + term_smtlib2(*b) + ")"@,
        Term::Gt(a, b) => "(> "@ + term_smtlib2(*a) + " "@ + term_smtlib2(*b) + ")"@,
        Term::Ge(a, b) => "(>= "@ + term_smtlib2(*a) + " "@ + term_smtlib2(*b) + ")"@,
        Term::Ite(c, a, b) => "(ite "@ + term_smtlib2(*c) + " "@ + term_smtlib2(*a) + " "@ + term_smtlib2(*b) + ")"@,
    }
}

fn render_unary(head: &str, sx: String) -> (r: String)
    ensures
        r@ == head@ + sx@ + ")"@,
{
    let mut s = head.to_owned();
    s.append(sx.as_str());
    s.append(")");
    s
}

fn render_binary(head: &str, sa: String, sb: String) -> (r: String)
    ensures
        r@ == head@ + sa@ + " "@ + sb@ + ")"@,
{
    let mut s = head.to_owned();
    s.append(sa.as_str());
    s.append(" ");
    s.append(sb.as_str());
    s.append(")");
    s
}

/// Structural equality of terms, comparing variable names by their
/// characters (the equality the derived `Eq`/`Hash` of `Term` implement).
pub open spec fn same_term(a: Term, b: Term) -> bool
    decreases a,
{
    match (a, b) {
        (Term::Bool(x), Term::Bool(y)) => x == y,
        (Term::Int(x), Term::Int(y)) => x == y,
        (Term::Var(x), Term::Var(y)) => x@ == y@,
        (Term::Not(x), Term::Not(y)) => same_term(*x, *y),
        (Term::Neg(x), Term::Neg(y)) => same_term(*x, *y),
        (Term::And(a1, b1), Term::And(a2, b2)) => same_term(*a1, *a2) && same_term(*b1, *b2),
        (Term::Or(a1, b1), Term::Or(a2, b2)) => same_term(*a1, *a2) && same_term(*b1, *b2),
        (Term::Implies(a1, b1), Term::Implies(a2, b2)) => same_term(*a1, *a2) && same_term(*b1, *b2),
        (Term::Eq(a1, b1), Term::Eq(a2, b2)) => same_term(*a1, *a2) && same_term(*b1, *b2),
        (Term::Add(a1, b1), Term::Add(a2, b2)) => same_term(*a1, *a2) && same_term(*b1, *b2),
        (Term::Sub(a1, b1), Term::Sub(a2, b2)) => same_term(*a1, *a2) && same_term(*b1, *b2),
        (Term::Mul(a1, b1), Term::Mul(a2, b2)) => same_term(*a1, *a2) && same_term(*b1, *b2),
        (Term::Lt(a1, b1), Term::Lt(a2, b2)) => same_term(*a1, *a2) && same_term(*b1, *b2),
        (Term::Le(a1, b1), Term::Le(a2, b2)) => same_term(*a1, *a2) && same_term(*b1, *b2),
        (Term::Gt(a1, b1), Term::Gt(a2, b2)) => same_term(*a1, *a2) && same_term(*b1, *b2),
        (Term::Ge(a1, b1), Term::Ge(a2, b2)) => same_term(*a1, *a2) && same_term(*b1, *b2),
        (Term::Ite(c1, a1, b1), Term::Ite(c2, a2, b2)) => same_term(*c1, *c2) && same_term(*a1, *a2) && same_term(*b1, *b2),
        _ => false,
    }
}

/// Structurally equal terms evaluate alike in every model.
pub proof fn lemma_same_term_eval(a: Term, b: Term, m: Map<Seq<char>, Value>)
    requires
        same_term(a, b),
    ensures
        eval_term(a, m) == eval_term(b, m),
    decreases a,
{
    match (a, b) {
        (Term::Not(x), Term::Not(y)) => lemma_same_term_eval(*x, *y, m),
        (Term::Neg(x), Term::Neg(y)) => lemma_same_term_eval(*x, *y, m),
        (Term::And(a1, b1), Term::And(a2, b2)) => { lemma_same_term_eval(*a1, *a2, m); lemma_same_term_eval(*b1, *b2, m); },
        (Term::Or(a1, b1), Term::Or(a2, b2)) => { lemma_same_term_eval(*a1, *a2, m); lemma_same_term_eval(*b1, *b2, m); },
        (Term::Implies(a1, b1), Term::Implies(a2, b2)) => { lemma_same_term_eval(*a1, *a2, m); lemma_same_term_eval(*b1, *b2, m); },
        (Term::Eq(a1, b1), Term::Eq(a2, b2)) => { lemma_same_term_eval(*a1, *a2, m); lemma_same_term_eval(*b1, *b2, m); },
        (Term::Add(a1, b1), Term::Add(a2, b2)) => { lemma_same_term_eval(*a1, *a2, m); lemma_same_term_eval(*b1, *b2, m); },
        (Term::Sub(a1, b1), Term::Sub(a2, b2)) => { lemma_same_term_eval(*a1, *a2, m); lemma_same_term_eval(*b1, *b2, m); },
        (Term::Mul(a1, b1), Term::Mul(a2, b2)) => { lemma_same_term_eval(*a1, *a2, m); lemma_same_term_eval(*b1, *b2, m); },
        (Term::Lt(a1, b1), Term::Lt(a2, b2)) => { lemma_same_term_eval(*a1, *a2, m); lemma_same_term_eval(*b1, *b2, m); },
        (Term::Le(a1, b1), Term::Le(a2, b2)) => { lemma_same_term_eval(*a1, *a2, m); lemma_same_term_eval(*b1, *b2, m); },
        (Term::Gt(a1, b1), Term::Gt(a2, b2)) => { lemma_same_term_eval(*a1, *a2, m); lemma_same_term_eval(*b1, *b2, m); },
        (Term::Ge(a1, b1), Term::Ge(a2, b2)) => { lemma_same_term_eval(*a1, *a2, m); lemma_same_term_eval(*b1, *b2, m); },
        (Term::Ite(c1, a1, b1), Term::Ite(c2, a2, b2)) => {
            lemma_same_term_eval(*c1, *c2, m);
            lemma_same_term_eval(*a1, *a2, m);
            lemma_same_term_eval(*b1, *b2, m);
        },
        _ => {},
    }
}

/// Decide structural equality of two terms.
pub fn term_eq(a: &Term, b: &Term) -> (r: bool)
    ensures
        r == same_term(*a, *b),
    decreases *a,
{
    match (a, b) {
        (Term::Bool(x), Term::Bool(y)) => *x == *y,
        (Term::Int(x), Term::Int(y)) => *x == *y,
        (Term::Var(x), Term::Var(y)) => *x == *y,
        (Term::Not(x), Term::Not(y)) => term_eq(x, y),
        (Term::Neg(x), Term::Neg(y)) => term_eq(x, y),
        (Term::And(a1, b1), Term::And(a2, b2)) => term_eq(a1, a2) && term_eq(b1, b2),
        (Term::Or(a1, b1), Term::Or(a2, b2)) => term_eq(a1, a2) && term_eq(b1, b2),
        (Term::Implies(a1, b1), Term::Implies(a2, b2)) => term_eq(a1, a2) && term_eq(b1, b2),
        (Term::Eq(a1, b1), Term::Eq(a2, b2)) => term_eq(a1, a2) && term_eq(b1, b2),
        (Term::Add(a1, b1), Term::Add(a2, b2)) => term_eq(a1, a2) && term_eq(b1, b2),
        (Term::Sub(a1, b1), Term::Sub(a2, b2)) => term_eq(a1, a2) && term_eq(b1, b2),
        (Term::Mul(a1, b1), Term::Mul(a2, b2)) => term_eq(a1, a2) && term_eq(b1, b2),
        (Term::Lt(a1, b1), Term::Lt(a2, b2)) => term_eq(a1, a2) && term_eq(b1, b2),
        (Term::Le(a1, b1), Term::Le(a2, b2)) => term_eq(a1, a2) && term_eq(b1, b2),
        (Term::Gt(a1, b1), Term::Gt(a2, b2)) => term_eq(a1, a2) && term_eq(b1, b2),
        (Term::Ge(a1, b1), Term::Ge(a2, b2)) => term_eq(a1, a2) && term_eq(b1, b2),
        (Term::Ite(c1, a1, b1), Term::Ite(c2, a2, b2)) => term_eq(c1, c2) && term_eq(a1, a2) && term_eq(b1, b2),
        _ => false,
    }
}

fn eval_bool(t: &Term, model: &Model) -> (r: Option<bool>)
    requires
        !eval_overflows(*t, model@),
    ensures
        r == (match eval_term(*t, model@) {
            Some(Value::Bool(b)) => Some(b),
            _ => None::<bool>,
        }),
    decreases *t, 1nat,
{
    match t.eval(model) {
        Some(Value::Bool(b)) => Some(b),
        _ => None,
    }
}

fn eval_int(t: &Term, model: &Model) -> (r: Option<i64>)
    requires
        !eval_overflows(*t, model@),
    ensures
        r == (match eval_term(*t, model@) {
            Some(Value::Int(i)) => Some(i),
            _ => None::<i64>,
        }),
    decreases *t, 1nat,
{
    match t.eval(model) {
        Some(Value::Int(i)) => Some(i),
        _ => None,
    }
}

impl Clone for Term {
    fn clone(&self) -> (r: Self)
        ensures
            r == *self,
        decreases self,
    {
        match self {
            Term::Bool(b) => Term::Bool(*b),
            Term::Int(i) => Term::Int(*i),
            Term::Var(v) => Term::Var(v.clone()),
            Term::Not(x) => Term::Not(Box::new(Term::clone(x))),
            Term::And(a, b) => Term::And(Box::new(Term::clone(a)), Box::new(Term::clone(b))),
            Term::Or(a, b) => Term::Or(Box::new(Term::clone(a)), Box::new(Term::clone(b))),
            Term::Implies(a, b) => Term::Implies(Box::new(Term::clone(a)), Box::new(Term::clone(b))),
            Term::Eq(a, b) => Term::Eq(Box::new(Term::clone(a)), Box::new(Term::clone(b))),
            Term::Neg(x) => Term::Neg(Box::new(Term::clone(x))),
            Term::Add(a, b) => Term::Add(Box::new(Term::clone(a)), Box::new(Term::clone(b))),
            Term::Sub(a, b) => Term::Sub(Box::new(Term::clone(a)), Box::new(Term::clone(b))),
            Term::Mul(a, b) => Term::Mul(Box::new(Term::clone(a)), Box::new(Term::clone(b))),
            Term::Lt(a, b) => Term::Lt(Box::new(Term::clone(a)), Box::new(Term::clone(b))),
            Term::Le(a, b) => Term::Le(Box::new(Term::clone(a)), Box::new(Term::clone(b))),
            Term::Gt(a, b) => Term::Gt(Box::new(Term::clone(a)), Box::new(Term::clone(b))),
            Term::Ge(a, b) => Term::Ge(Box::new(Term::clone(a)), Box::new(Term::clone(b))),
            Term::Ite(c, a, b) => Term::Ite(Box::new(Term::clone(c)), Box::new(Term::clone(a)), Box::new(Term::clone(b))),
        }
    }
}

impl Term {
    /// Construct a boolean constant.
    pub fn bool(b: bool) -> (r: Self)
        ensures
            r == Term::Bool(b),
    {
        Term::Bool(b)
    }

    /// Construct an integer constant.
    pub fn int_(i: i64) -> (r: Self)
        ensures
            r == Term::Int(i),
    {
        Term::Int(i)
    }

    /// Construct a named variable.
    pub fn var(name: &str) -> (r: Self)
        ensures
            r matches Term::Var(v) && v@ == name@,
    {
        Term::Var(name.to_owned())
    }

    /// Logical conjunction.
    pub fn and(self, other: Term) -> (r: Self)
        ensures
            r == Term::And(Box::new(self), Box::new(other)),
    {
        Term::And(Box::new(self), Box::new(other))
    }

    /// Logical disjunction.
    pub fn or(self, other: Term) -> (r: Self)
        ensures
            r == Term::Or(Box::new(self), Box::new(other)),
    {
        Term::Or(Box::new(self), Box::new(other))
    }

    /// Logical implication.
    pub fn implies(self, other: Term) -> (r: Self)
        ensures
            r == Term::Implies(Box::new(self), Box::new(other)),
    {
        Term::Implies(Box::new(self), Box::new(other))
    }

    /// If-then-else over boolean conditions: `self ? a : b`.
    pub fn ite(self, a: Term, b: Term) -> (r: Self)
        ensures
            r == Term::Ite(Box::new(self), Box::new(a), Box::new(b)),
    {
        Term::Ite(Box::new(self), Box::new(a), Box::new(b))
    }

    /// Equality with another term.
    pub fn equals(self, other: Term) -> (r: Self)
        ensures
            r == Term::Eq(Box::new(self), Box::new(other)),
    {
        Term::Eq(Box::new(self), Box::new(other))
    }

    /// Integer less-than.
    pub fn lt(self, other: Term) -> (r: Self)
        ensures
            r == Term::Lt(Box::new(self), Box::new(other)),
    {
        Term::Lt(Box::new(self), Box::new(other))
    }

    /// Integer less-than-or-equal.
    pub fn le(self, other: Term) -> (r: Self)
        ensures
            r == Term::Le(Box::new(self), Box::new(other)),
    {
        Term::Le(Box::new(self), Box::new(other))
    }

    /// Integer greater-than.
    pub fn gt(self, other: Term) -> (r: Self)
        ensures
            r == Term::Gt(Box::new(self), Box::new(other)),
    {
        Term::Gt(Box::new(self), Box::new(other))
    }

    /// Integer greater-than-or-equal.
    pub fn ge(self, other: Term) -> (r: Self)
        ensures
            r == Term::Ge(Box::new(self), Box::new(other)),
    {
        Term::Ge(Box::new(self), Box::new(other))
    }

    /// Render the term as an SMT-LIB 2 expression.
    pub fn to_smtlib2(&self) -> (r: String)
        ensures
            r@ == term_smtlib2(*self),
        decreases *self, 0nat,
    {
        match self {
            Term::Bool(true) => String::from_str("true"),
            Term::Bool(false) => String::from_str("false"),
            Term::Int(i) => numeral_string(*i),
            Term::Var(v) => v.clone(),
            Term::Not(x) => render_unary("(not ", x.to_smtlib2()),
            Term::Neg(x) => render_unary("(- ", x.to_smtlib2()),
            Term::And(a, b) => render_binary("(and ", a.to_smtlib2(), b.to_smtlib2()),
            Term::Or(a, b) => render_binary("(or ", a.to_smtlib2(), b.to_smtlib2()),
            Term::Implies(a, b) => render_binary("(=> ", a.to_smtlib2(), b.to_smtlib2()),
            Term::Eq(a, b) => render_binary("(= ", a.to_smtlib2(), b.to_smtlib2()),
            Term::Add(a, b) => render_binary("(+ ", a.to_smtlib2(), b.to_smtlib2()),
            Term::Sub(a, b) => render_binary("(- ", a.to_smtlib2(), b.to_smtlib2()),
            Term::Mul(a, b) => render_binary("(* ", a.to_smtlib2(), b.to_smtlib2()),
            Term::Lt(a, b) => render_binary("(< ", a.to_smtlib2(), b.to_smtlib2()),
            Term::Le(a, b) => render_binary("(<= ", a.to_smtlib2(), b.to_smtlib2()),
            Term::Gt(a, b) => render_binary("(> ", a.to_smtlib2(), b.to_smtlib2()),
            Term::Ge(a, b) => render_binary("(>= ", a.to_smtlib2(), b.to_smtlib2()),
            Term::Ite(c, a, b) => {
                let mut s = String::from_str("(ite ");
                let sc = c.to_smtlib2();
                s.append(sc.as_str());
                s.append(" ");
                let sa = a.to_smtlib2();
                s.append(sa.as_str());
                s.append(" ");
                let sb = b.to_smtlib2();
                s.append(sb.as_str());
                s.append(")");
                s
            },
        }
    }

    /// Evaluate this term against a model (variable assignments).
    ///
    /// Returns `None` if the term is not ground (contains an unassigned
    /// variable) or is ill-typed for the built-in evaluator.
    pub fn eval(&self, model: &Model) -> (r: Option<Value>)
        requires
            !eval_overflows(*self, model@),
        ensures
            r == eval_term(*self, model@),
        decreases *self, 0nat,
    {
        match self {
            Term::Bool(b) => Some(Value::Bool(*b)),
            Term::Int(i) => Some(Value::Int(*i)),
            Term::Var(v) => model.get(v.as_str()),
            Term::Not(x) => match eval_bool(x, model) {
                Some(b) => Some(Value::Bool(!b)),
                None => None,
            },
            Term::And(a, b) => {
                let a = match eval_bool(a, model) { Some(x) => x, None => return None };
                let b = match eval_bool(b, model) { Some(x) => x, None => return None };
                Some(Value::Bool(a && b))
            },
            Term::Or(a, b) => {
                let a = match eval_bool(a, model) { Some(x) => x, None => return None };
                let b = match eval_bool(b, model) { Some(x) => x, None => return None };
                Some(Value::Bool(a || b))
            },
            Term::Implies(a, b) => {
                let a = match eval_bool(a, model) { Some(x) => x, None => return None };
                let b = match eval_bool(b, model) { Some(x) => x, None => return None };
                Some(Value::Bool(!a || b))
            },
            Term::Eq(a, b) => {
                let a = match a.eval(model) { Some(x) => x, None => return None };
                let b = match b.eval(model) { Some(x) => x, None => return None };
                match (a, b) {
                    (Value::Bool(x), Value::Bool(y)) => Some(Value::Bool(x == y)),
                    (Value::Int(x), Value::Int(y)) => Some(Value::Bool(x == y)),
                    _ => None,
                }
            },
            Term::Neg(x) => match eval_int(x, model) {
                Some(i) => Some(Value::Int(-i)),
                None => None,
            },
            Term::Add(a, b) => {
                let a = match eval_int(a, model) { Some(x) => x, None => return None };
                let b = match eval_int(b, model) { Some(x) => x, None => return None };
                Some(Value::Int(a + b))
            },
            Term::Sub(a, b) => {
                let a = match eval_int(a, model) { Some(x) => x, None => return None };
                let b = match eval_int(b, model) { Some(x) => x, None => return None };
                Some(Value::Int(a - b))
            },
            Term::Mul(a, b) => {
                let a = match eval_int(a, model) { Some(x) => x, None => return None };
                let b = match eval_int(b, model) { Some(x) => x, None => return None };
                Some(Value::Int(a * b))
            },
            Term::Lt(a, b) => {
                let a = match eval_int(a, model) { Some(x) => x, None => return None };
                let b = match eval_int(b, model) { Some(x) => x, None => return None };
                Some(Value::Bool(a < b))
            },
            Term::Le(a, b) => {
                let a = match eval_int(a, model) { Some(x) => x, None => return None };
                let b = match eval_int(b, model) { Some(x) => x, None => return None };
                Some(Value::Bool(a <= b))
            },
            Term::Gt(a, b) => {
                let a = match eval_int(a, model) { Some(x) => x, None => return None };
                let b = match eval_int(b, model) { Some(x) => x, None => return None };
                Some(Value::Bool(a > b))
            },
            Term::Ge(a, b) => {
                let a = match eval_int(a, model) { Some(x) => x, None => return None };
                let b = match eval_int(b, model) { Some(x) => x, None => return None };
                Some(Value::Bool(a >= b))
            },
            Term::Ite(c, a, b) => {
                let c = match eval_bool(c, model) { Some(x) => x, None => return None };
                if c {
                    a.eval(model)
                } else {
                    b.eval(model)
                }
            },
        }
    }
}

/// The result of a satisfiability query.
#[derive(Debug, Clone, Copy, PartialEq, Eq)]
pub enum SatResult {
    /// All assertions are simultaneously satisfiable (ground-checkable).
    Sat,
    /// At least one assertion is false.
    Unsat,
    /// Satisfiability could not be decided by the built-in tiers (e.g. the
    /// problem contains unassigned variables).
    Unknown,
}

/// A satisfiability problem: declared constants plus asserted terms.
#[derive(Debug, Default)]
pub struct Problem {
    declarations: Vec<(String, Sort)>,
    assertions: Vec<Term>,
}

impl Problem {
    /// The declared constants, as name and sort.
    pub closed spec fn spec_declarations(self) -> Seq<(Seq<char>, Sort)> {
        self.declarations@.map_values(|d: (String, Sort)| (d.0@, d.1))
    }

    /// The asserted terms, in order.
    pub closed spec fn spec_assertions(self) -> Seq<Term> {
        self.assertions@
    }

    /// Create an empty problem.
    pub fn new() -> (r: Problem)
        ensures
            r.spec_declarations() == Seq::<(Seq<char>, Sort)>::empty(),
            r.spec_assertions() == Seq::<Term>::empty(),
    {
        let p = Problem { declarations: Vec::new(), assertions: Vec::new() };
        proof {
            assert(p.spec_declarations() =~= Seq::<(Seq<char>, Sort)>::empty());
        }
        p
    }

    /// Declare a constant of a given sort.
    pub fn declare_const(&mut self, name: &str, sort: Sort) -> (r: &mut Self)
        ensures
            r.spec_declarations() == old(self).spec_declarations().push((name@, sort)),
            r.spec_assertions() == old(self).spec_assertions(),
            *final(self) == *final(r),
    {
        self.declarations.push((name.to_owned(), sort));
        proof {
            assert(self.spec_declarations() =~= old(self).spec_declarations().push((name@, sort)));
        }
        self
    }

    /// Assert a boolean term.
    pub fn assert_term(&mut self, term: Term) -> (r: &mut Self)
        ensures
            r.spec_declarations() == old(self).spec_declarations(),
            r.spec_assertions() == old(self).spec_assertions().push(term),
            *final(self) == *final(r),
    {
        self.assertions.push(term);
        self
    }

    /// The declared constants.
    pub fn declarations(&self) -> (r: &[(String, Sort)])
        ensures
            r@.map_values(|d: (String, Sort)| (d.0@, d.1)) == self.spec_declarations(),
    {
        self.declarations.as_slice()
    }

    /// The asserted terms.
    pub fn assertions(&self) -> (r: &[Term])
        ensures
            r@ == self.spec_assertions(),
    {
        self.assertions.as_slice()
    }
}


/// The verdict of the ground tier over the assertions read in order:
/// `Some(false)` when one evaluates to `false` in the empty model,
/// `Some(true)` when all evaluate to `true`, `None` otherwise.
pub open spec fn ground_verdict(ts: Seq<Term>) -> Option<bool>
    decreases ts.len(),
{
    if ts.len() == 0 {
        Some(true)
    } else {
        match eval_term(ts[0], Map::empty()) {
            Some(Value::Bool(false)) => Some(false),
            Some(Value::Bool(true)) => ground_verdict(ts.drop_first()),
            _ => match ground_verdict(ts.drop_first()) {
                Some(false) => Some(false),
                _ => None,
            },
        }
    }
}

/// Evaluating the assertions in order, in the empty model, overflows before
/// an assertion evaluates to `false`.
pub open spec fn ground_overflows(ts: Seq<Term>) -> bool
    decreases ts.len(),
{
    if ts.len() == 0 {
        false
    } else {
        eval_overflows(ts[0], Map::empty()) || (eval_term(ts[0], Map::empty()) != Some(Value::Bool(false))
            && ground_overflows(ts.drop_first()))
    }
}

/// The verdict of `check_sat`: the ground tier, and where it cannot decide,
/// the boolean abstraction.
pub open spec fn spec_check_sat(ts: Seq<Term>) -> SatResult {
    match ground_verdict(ts) {
        Some(false) => SatResult::Unsat,
        Some(true) => SatResult::Sat,
        None => spec_decide(ts),
    }
}

/// `check_sat` does not return on these assertions: evaluation overflows,
/// or the abstraction needs more variables than DIMACS literals can name.
pub open spec fn check_sat_fails(ts: Seq<Term>) -> bool {
    ground_overflows(ts) || (ground_verdict(ts) is None && abstraction(ts).next > i32::MAX)
}

impl Problem {
    /// Check satisfiability: first with the ground evaluator (in the empty
    /// model); where variables are left unassigned, with the boolean
    /// abstraction, which can only prove the problem unsatisfiable.
    pub fn check_sat(&self) -> (r: SatResult)
        requires
            !check_sat_fails(self.spec_assertions()),
        ensures
            r == spec_check_sat(self.spec_assertions()),
    {
        let model = Model::new();
        let ghost ts = self.spec_assertions();
        let mut unknown = false;
        let mut i: usize = 0;
        proof {
            assert(ts.skip(0) == ts);
        }
        while i < self.assertions.len()
            invariant
                0 <= i <= ts.len(),
                ts == self.assertions@,
                model@ == Map::<Seq<char>, Value>::empty(),
                !ground_overflows(ts.skip(i as int)),
                ground_verdict(ts) == (if unknown {
                    match ground_verdict(ts.skip(i as int)) {
                        Some(false) => Some(false),
                        _ => None,
                    }
                } else {
                    ground_verdict(ts.skip(i as int))
                }),
            decreases ts.len() - i,
        {
            let ghost rest = ts.skip(i as int);
            proof {
                assert(rest[0] == ts[i as int]);
                assert(rest.drop_first() == ts.skip(i + 1));
            }
            match self.assertions[i].eval(&model) {
                Some(Value::Bool(true)) => {},
                Some(Value::Bool(false)) => return SatResult::Unsat,
                _ => unknown = true,
            }
            i += 1;
        }
        proof {
            assert(ts.skip(i as int) == Seq::<Term>::empty());
        }
        if unknown {
            bool_abstract::decide(self)
        } else {
            SatResult::Sat
        }
    }

    /// Extract a model.  The built-in backend determines no assignments, so
    /// the model is empty (always a valid, if partial, model).
    pub fn get_model(&self) -> (r: Model)
        ensures
            r@ == Map::<Seq<char>, Value>::empty(),
    {
        Model::new()
    }
}

/// Evaluation is monotone in the model: a value found in a model is found
/// again in every model that extends it.
pub proof fn lemma_eval_monotone(t: Term, m1: Map<Seq<char>, Value>, m2: Map<Seq<char>, Value>)
    requires
        m1.submap_of(m2),
        eval_term(t, m1) is Some,
    ensures
        eval_term(t, m2) == eval_term(t, m1),
    decreases t,
{
    match t {
        Term::Var(v) => {
            assert(m1.contains_key(v@));
        },
        Term::Not(x) | Term::Neg(x) => lemma_eval_monotone(*x, m1, m2),
        Term::And(a, b) | Term::Or(a, b) | Term::Implies(a, b) | Term::Eq(a, b) | Term::Add(a, b)
        | Term::Sub(a, b) | Term::Mul(a, b) | Term::Lt(a, b) | Term::Le(a, b) | Term::Gt(a, b)
        | Term::Ge(a, b) => {
            lemma_eval_monotone(*a, m1, m2);
            lemma_eval_monotone(*b, m1, m2);
        },
        Term::Ite(c, a, b) => {
            lemma_eval_monotone(*c, m1, m2);
            match eval_term(*c, m1) {
                Some(Value::Bool(true)) => lemma_eval_monotone(*a, m1, m2),
                _ => lemma_eval_monotone(*b, m1, m2),
            }
        },
        _ => {},
    }
}

proof fn lemma_ground_verdict(ts: Seq<Term>)
    ensures
        ground_verdict(ts) == Some(false) ==> exists|i: int| 0 <= i < ts.len() && #[trigger] eval_term(ts[i], Map::empty()) == Some(Value::Bool(false)),
        ground_verdict(ts) == Some(true) <==> forall|i: int| 0 <= i < ts.len() ==> #[trigger] eval_term(ts[i], Map::empty()) == Some(Value::Bool(true)),
    decreases ts.len(),
{
    if ts.len() > 0 {
        lemma_ground_verdict(ts.drop_first());
        if forall|i: int| 0 <= i < ts.len() ==> #[trigger] eval_term(ts[i], Map::empty()) == Some(Value::Bool(true)) {
            assert(eval_term(ts[0], Map::empty()) == Some(Value::Bool(true)));
            assert forall|i: int| 0 <= i < ts.drop_first().len() implies #[trigger] eval_term(ts.drop_first()[i], Map::empty()) == Some(Value::Bool(true)) by {
                assert(ts.drop_first()[i] == ts[i + 1]);
            }
        }
        if ground_verdict(ts) == Some(false) && eval_term(ts[0], Map::empty()) != Some(Value::Bool(false)) {
            let i = choose|i: int| 0 <= i < ts.drop_first().len() && #[trigger] eval_term(ts.drop_first()[i], Map::empty()) == Some(Value::Bool(false));
            assert(ts[i + 1] == ts.drop_first()[i]);
        }
        if ground_verdict(ts) == Some(true) {
            assert forall|i: int| 0 <= i < ts.len() implies #[trigger] eval_term(ts[i], Map::empty()) == Some(Value::Bool(true)) by {
                if i > 0 {
                    assert(ts[i] == ts.drop_first()[i - 1]);
                }
            }
        }
    }
}

/// A model makes every assertion evaluate to `true`.
pub open spec fn satisfies_all(ts: Seq<Term>, m: Map<Seq<char>, Value>) -> bool {
    forall|i: int| 0 <= i < ts.len() ==> eval_term(#[trigger] ts[i], m) == Some(Value::Bool(true))
}

/// Soundness of `check_sat`: `Unsat` means that no model makes every
/// assertion true, and `Sat` means that every model does; `Sat` comes
/// exactly when every assertion holds in the empty model.
pub proof fn lemma_check_sat_sound(ts: Seq<Term>)
    ensures
        spec_check_sat(ts) == SatResult::Unsat ==> forall|m: Map<Seq<char>, Value>| !satisfies_all(ts, m),
        spec_check_sat(ts) == SatResult::Sat ==> forall|m: Map<Seq<char>, Value>| satisfies_all(ts, m),
        spec_check_sat(ts) == SatResult::Sat <==> satisfies_all(ts, Map::empty()),
{
    lemma_ground_verdict(ts);
    let e = Map::<Seq<char>, Value>::empty();
    assert forall|m: Map<Seq<char>, Value>| spec_check_sat(ts) == SatResult::Unsat implies !satisfies_all(ts, m) by {
        if ground_verdict(ts) == Some(false) {
            let i = choose|i: int| 0 <= i < ts.len() && #[trigger] eval_term(ts[i], Map::empty()) == Some(Value::Bool(false));
            lemma_eval_monotone(ts[i], e, m);
        } else if satisfies_all(ts, m) {
            lemma_abstraction_sound(ts, m);
        }
    }
    assert forall|m: Map<Seq<char>, Value>| spec_check_sat(ts) == SatResult::Sat implies satisfies_all(ts, m) by {
        assert forall|i: int| 0 <= i < ts.len() implies eval_term(#[trigger] ts[i], m) == Some(Value::Bool(true)) by {
            assert(eval_term(ts[i], e) == Some(Value::Bool(true)));
            lemma_eval_monotone(ts[i], e, m);
        }
    }
}


/// The declaration lines of an SMT-LIB 2 script.
pub open spec fn declarations_text(ds: Seq<(Seq<char>, Sort)>) -> Seq<char>
    decreases ds.len(),
{
    if ds.len() == 0 {
        Seq::empty()
    } else {
        declarations_text(ds.drop_last()) + "(declare-const "@ + ds.last().0 + " "@ + ds.last().1.spec_smtlib2() + ")\n"@
    }
}

/// The assertion lines of an SMT-LIB 2 script.
pub open spec fn assertions_text(ts: Seq<Term>) -> Seq<char>
    decreases ts.len(),
{
    if ts.len() == 0 {
        Seq::empty()
    } else {
        assertions_text(ts.drop_last()) + "(assert "@ + term_smtlib2(ts.last()) + ")\n"@
    }
}

impl Problem {
    /// The SMT-LIB 2 script of the problem.
    pub open spec fn spec_smtlib2(self) -> Seq<char> {
        "(set-logic QF_LIA)\n"@ + declarations_text(self.spec_declarations()) + assertions_text(self.spec_assertions())
            + "(check-sat)\n"@ + "(get-model)\n"@
    }

    /// Serialize the whole problem to an SMT-LIB 2 script.
    pub fn to_smtlib2(&self) -> (r: String)
        ensures
            r@ == self.spec_smtlib2(),
    {
        let mut out = String::from_str("(set-logic QF_LIA)\n");
        let ghost head = out@;
        let ghost ds = self.spec_declarations();
        let mut i: usize = 0;
        while i < self.declarations.len()
            invariant
                0 <= i <= self.declarations@.len(),
                ds == self.spec_declarations(),
                ds.len() == self.declarations@.len(),
                out@ == head + declarations_text(ds.subrange(0, i as int)),
            decreases self.declarations@.len() - i,
        {
            proof {
                assert(ds.subrange(0, i + 1).drop_last() == ds.subrange(0, i as int));
                assert(ds[i as int] == (self.declarations@[i as int].0@, self.declarations@[i as int].1));
            }
            out.append("(declare-const ");
            out.append(self.declarations[i].0.as_str());
            out.append(" ");
            let st = self.declarations[i].1.to_smtlib2();
            out.append(st.as_str());
            out.append(")\n");
            i += 1;
        }
        proof {
            assert(ds.subrange(0, i as int) == ds);
        }
        let ghost mid = out@;
        let ghost ts = self.spec_assertions();
        let mut j: usize = 0;
        proof {
            assert(ts.subrange(0, 0) == Seq::<Term>::empty());
        }
        while j < self.assertions.len()
            invariant
                0 <= j <= self.assertions@.len(),
                ts == self.assertions@,
                out@ == mid + assertions_text(ts.subrange(0, j as int)),
            decreases self.assertions@.len() - j,
        {
            proof {
                assert(ts.subrange(0, j + 1).drop_last() == ts.subrange(0, j as int));
            }
            out.append("(assert ");
            let st = self.assertions[j].to_smtlib2();
            out.append(st.as_str());
            out.append(")\n");
            j += 1;
        }
        proof {
            assert(ts.subrange(0, j as int) == ts);
        }
        out.append("(check-sat)\n");
        out.append("(get-model)\n");
        out
    }
}

} // verus!
