//! Runtime verification: temporal-logic monitoring over live traces.
//!
//! A small linear-temporal-logic fragment and a [`Monitor`] that, given a
//! stream of events, reports a [`Verdict`]. A property that holds whatever
//! comes next is satisfied; one that is broken whatever comes next is
//! violated; otherwise the verdict is inconclusive, the natural verdict for
//! a finite prefix whose future could still change the outcome.
use vstd::prelude::*;

verus! {

/// An atomic proposition, identified by name.
#[derive(Debug, PartialEq, Eq, Hash)]
pub struct Atom(pub String);

impl Clone for Atom {
    fn clone(&self) -> (r: Self)
        ensures
            r == *self,
    {
        Atom(self.0.clone())
    }
}

impl Atom {
    /// Create an atomic proposition by name.
    pub fn new(name: &str) -> (r: Atom)
        ensures
            r.0@ == name@,
    {
        Atom(name.to_owned())
    }
}

/// A temporal-logic specification over atomic propositions.
#[derive(Debug, PartialEq)]
pub enum Formula {
    /// An atomic proposition is true at this position.
    Atom(Atom),
    /// Logical negation.
    Not(Box<Formula>),
    /// Logical conjunction.
    And(Box<Formula>, Box<Formula>),
    /// Logical disjunction.
    Or(Box<Formula>, Box<Formula>),
    /// Logical implication.
    Implies(Box<Formula>, Box<Formula>),
    /// Globally: holds at the current position and every future position.
    Globally(Box<Formula>),
    /// Eventually: holds at the current or some future position.
    Eventually(Box<Formula>),
    /// Next: holds at the immediately following position.
    Next(Box<Formula>),
    /// Until: `a` holds at every position up to (but not including) the first
    /// position where `b` holds, and `b` eventually holds.
    Until(Box<Formula>, Box<Formula>),
}

impl Clone for Formula {
    fn clone(&self) -> (r: Self)
        ensures
            r == *self,
        decreases self,
    {
        match self {
            Formula::Atom(a) => Formula::Atom(a.clone()),
            Formula::Not(g) => Formula::Not(Box::new(Formula::clone(g))),
            Formula::And(a, b) => Formula::And(Box::new(Formula::clone(a)), Box::new(Formula::clone(b))),
            Formula::Or(a, b) => Formula::Or(Box::new(Formula::clone(a)), Box::new(Formula::clone(b))),
            Formula::Implies(a, b) => Formula::Implies(Box::new(Formula::clone(a)), Box::new(Formula::clone(b))),
            Formula::Globally(g) => Formula::Globally(Box::new(Formula::clone(g))),
            Formula::Eventually(g) => Formula::Eventually(Box::new(Formula::clone(g))),
            Formula::Next(g) => Formula::Next(Box::new(Formula::clone(g))),
            Formula::Until(a, b) => Formula::Until(Box::new(Formula::clone(a)), Box::new(Formula::clone(b))),
        }
    }
}

impl Formula {
    /// An atomic proposition.
    pub fn atom(name: &str) -> (r: Formula)
        ensures
            r matches Formula::Atom(a) && a.0@ == name@,
    {
        Formula::Atom(Atom::new(name))
    }

    /// Logical negation.
    pub fn not(f: Formula) -> (r: Formula)
        ensures
            r == Formula::Not(Box::new(f)),
    {
        Formula::Not(Box::new(f))
    }

    /// Logical conjunction.
    pub fn and(a: Formula, b: Formula) -> (r: Formula)
        ensures
            r == Formula::And(Box::new(a), Box::new(b)),
    {
        Formula::And(Box::new(a), Box::new(b))
    }

    /// Logical disjunction.
    pub fn or(a: Formula, b: Formula) -> (r: Formula)
        ensures
            r == Formula::Or(Box::new(a), Box::new(b)),
    {
        Formula::Or(Box::new(a), Box::new(b))
    }

    /// Logical implication.
    pub fn implies(a: Formula, b: Formula) -> (r: Formula)
        ensures
            r == Formula::Implies(Box::new(a), Box::new(b)),
    {
        Formula::Implies(Box::new(a), Box::new(b))
    }

    /// Globally.
    pub fn globally(f: Formula) -> (r: Formula)
        ensures
            r == Formula::Globally(Box::new(f)),
    {
        Formula::Globally(Box::new(f))
    }

    /// Eventually.
    pub fn eventually(f: Formula) -> (r: Formula)
        ensures
            r == Formula::Eventually(Box::new(f)),
    {
        Formula::Eventually(Box::new(f))
    }

    /// Next.
    pub fn next(f: Formula) -> (r: Formula)
        ensures
            r == Formula::Next(Box::new(f)),
    {
        Formula::Next(Box::new(f))
    }

    /// Until.
    pub fn until(a: Formula, b: Formula) -> (r: Formula)
        ensures
            r == Formula::Until(Box::new(a), Box::new(b)),
    {
        Formula::Until(Box::new(a), Box::new(b))
    }
}

/// One observed step: the set of atomic propositions that hold at this instant.
#[derive(Debug, Default)]
pub struct Step {
    props: Vec<String>,
}

impl View for Step {
    type V = Set<Seq<char>>;

    closed spec fn view(&self) -> Set<Seq<char>> {
        self.props@.map_values(|p: String| p@).to_set()
    }
}

impl Step {
    /// Build a step from the names of the propositions that hold.
    pub fn from_names(names: &[&str]) -> (r: Step)
        ensures
            r@ == names@.map_values(|n: &str| n@).to_set(),
    {
        let mut props: Vec<String> = Vec::new();
        let mut i: usize = 0;
        while i < names.len()
            invariant
                0 <= i <= names@.len(),
                props@.len() == i,
                forall|k: int| 0 <= k < i ==> (#[trigger] props@[k])@ == names@[k]@,
            decreases names@.len() - i,
        {
            props.push(names[i].to_owned());
            i += 1;
        }
        let r = Step { props };
        proof {
            assert(r.props@.map_values(|p: String| p@) =~= names@.map_values(|n: &str| n@));
        }
        r
    }

    /// Whether the named proposition holds at this step.
    pub fn has(&self, name: &str) -> (r: bool)
        ensures
            r == self@.contains(name@),
    {
        let key = name.to_owned();
        let ghost names = self.props@.map_values(|p: String| p@);
        let mut i: usize = 0;
        while i < self.props.len()
            invariant
                0 <= i <= self.props@.len(),
                key@ == name@,
                names == self.props@.map_values(|p: String| p@),
                forall|k: int| 0 <= k < i ==> (#[trigger] names[k]) != name@,
            decreases self.props@.len() - i,
        {
            if self.props[i] == key {
                proof {
                    assert(names[i as int] == name@);
                    assert(names.to_set().contains(name@));
                }
                return true;
            }
            i += 1;
        }
        proof {
            if names.to_set().contains(name@) {
                let k = choose|k: int| 0 <= k < names.len() && names[k] == name@;
                assert(names[k] != name@);
            }
        }
        false
    }
}

impl Clone for Step {
    fn clone(&self) -> (r: Self)
        ensures
            r@ == self@,
    {
        let mut props: Vec<String> = Vec::new();
        let mut i: usize = 0;
        while i < self.props.len()
            invariant
                0 <= i <= self.props@.len(),
                props@.len() == i,
                forall|k: int| 0 <= k < i ==> (#[trigger] props@[k])@ == self.props@[k]@,
            decreases self.props@.len() - i,
        {
            props.push(self.props[i].clone());
            i += 1;
        }
        let r = Step { props };
        proof {
            assert(r.props@.map_values(|p: String| p@) =~= self.props@.map_values(|p: String| p@));
        }
        r
    }
}

impl PartialEq for Step {
    fn eq(&self, other: &Self) -> (r: bool) {
        let mut i: usize = 0;
        while i < self.props.len()
            invariant
                0 <= i <= self.props@.len(),
                forall|k: int| 0 <= k < i ==> other@.contains(#[trigger] self.props@[k]@),
            decreases self.props@.len() - i,
        {
            if !other.has(self.props[i].as_str()) {
                proof {
                    assert(self@.contains(self.props@[i as int]@)) by {
                        assert(self.props@.map_values(|p: String| p@)[i as int] == self.props@[i as int]@);
                    }
                }
                return false;
            }
            i += 1;
        }
        let mut j: usize = 0;
        while j < other.props.len()
            invariant
                0 <= j <= other.props@.len(),
                forall|k: int| 0 <= k < j ==> self@.contains(#[trigger] other.props@[k]@),
            decreases other.props@.len() - j,
        {
            if !self.has(other.props[j].as_str()) {
                proof {
                    assert(other@.contains(other.props@[j as int]@)) by {
                        assert(other.props@.map_values(|p: String| p@)[j as int] == other.props@[j as int]@);
                    }
                }
                return false;
            }
            j += 1;
        }
        proof {
            assert forall|x: Seq<char>| self@.contains(x) <==> other@.contains(x) by {
                if self@.contains(x) {
                    let names = self.props@.map_values(|p: String| p@);
                    let k = choose|k: int| 0 <= k < names.len() && names[k] == x;
                    assert(other@.contains(self.props@[k]@));
                }
                if other@.contains(x) {
                    let names = other.props@.map_values(|p: String| p@);
                    let k = choose|k: int| 0 <= k < names.len() && names[k] == x;
                    assert(self@.contains(other.props@[k]@));
                }
            }
            assert(self@ =~= other@);
        }
        true
    }
}

impl vstd::std_specs::cmp::PartialEqSpecImpl for Step {
    open spec fn obeys_eq_spec() -> bool {
        true
    }

    open spec fn eq_spec(&self, other: &Step) -> bool {
        self@ == other@
    }
}

impl Eq for Step {
}

/// A trace: an ordered sequence of observed steps.
#[derive(Debug, Default)]
pub struct Trace {
    steps: Vec<Step>,
}

impl View for Trace {
    type V = Seq<Set<Seq<char>>>;

    closed spec fn view(&self) -> Seq<Set<Seq<char>>> {
        self.steps@.map_values(|s: Step| s@)
    }
}

impl Trace {
    /// An empty trace.
    pub fn new() -> (r: Trace)
        ensures
            r@ == Seq::<Set<Seq<char>>>::empty(),
    {
        let t = Trace { steps: Vec::new() };
        proof {
            assert(t@ =~= Seq::<Set<Seq<char>>>::empty());
        }
        t
    }

    /// Build a single-step trace from the proposition names that hold.
    pub fn step(names: &[&str]) -> (r: Trace)
        ensures
            r@ == seq![names@.map_values(|n: &str| n@).to_set()],
    {
        let mut steps: Vec<Step> = Vec::new();
        steps.push(Step::from_names(names));
        let t = Trace { steps };
        proof {
            assert(t@ =~= seq![names@.map_values(|n: &str| n@).to_set()]);
        }
        t
    }

    /// Append a step.
    pub fn push(&mut self, step: Step)
        ensures
            final(self)@ == old(self)@.push(step@),
    {
        let ghost s = step@;
        self.steps.push(step);
        proof {
            assert(self@ =~= old(self)@.push(s));
        }
    }

    /// The length of the trace.
    pub fn len(&self) -> (r: usize)
        ensures
            r == self@.len(),
    {
        self.steps.len()
    }

    /// Whether the trace is empty.
    pub fn is_empty(&self) -> (r: bool)
        ensures
            r == (self@.len() == 0),
    {
        self.steps.len() == 0
    }

    /// The steps, in order.
    pub fn steps(&self) -> (r: &[Step])
        ensures
            r@.map_values(|s: Step| s@) == self@,
    {
        self.steps.as_slice()
    }
}

impl Clone for Trace {
    fn clone(&self) -> (r: Self)
        ensures
            r@ == self@,
    {
        let mut steps: Vec<Step> = Vec::new();
        let mut i: usize = 0;
        while i < self.steps.len()
            invariant
                0 <= i <= self.steps@.len(),
                steps@.len() == i,
                forall|k: int| 0 <= k < i ==> (#[trigger] steps@[k])@ == self.steps@[k]@,
            decreases self.steps@.len() - i,
        {
            steps.push(self.steps[i].clone());
            i += 1;
        }
        let r = Trace { steps };
        proof {
            assert(r@ =~= self@);
        }
        r
    }
}

impl PartialEq for Trace {
    fn eq(&self, other: &Self) -> (r: bool) {
        if self.steps.len() != other.steps.len() {
            proof {
                assert(self@.len() != other@.len());
            }
            return false;
        }
        let mut i: usize = 0;
        while i < self.steps.len()
            invariant
                0 <= i <= self.steps@.len(),
                self.steps@.len() == other.steps@.len(),
                forall|k: int| 0 <= k < i ==> (#[trigger] self@[k]) == other@[k],
            decreases self.steps@.len() - i,
        {
            if !(self.steps[i] == other.steps[i]) {
                proof {
                    assert(self@[i as int] == self.steps@[i as int]@);
                }
                return false;
            }
            i += 1;
        }
        proof {
            assert(self@ =~= other@);
        }
        true
    }
}

impl vstd::std_specs::cmp::PartialEqSpecImpl for Trace {
    open spec fn obeys_eq_spec() -> bool {
        true
    }

    open spec fn eq_spec(&self, other: &Trace) -> bool {
        self@ == other@
    }
}

impl Eq for Trace {
}

/// The verdict of monitoring a specification against a (prefix of a) trace.
#[derive(Clone, Copy, Debug, PartialEq, Eq, Structural)]
pub enum Verdict {
    /// The property definitely holds.
    Satisfied,
    /// The property is definitely violated.
    Violated,
    /// No violation observed yet, but the outcome may change with more trace.
    Inconclusive,
}

impl Verdict {
    /// Conjunction of verdicts: violated if either is, satisfied if both are.
    pub open spec fn spec_and(self, other: Verdict) -> Verdict {
        if self == Verdict::Violated || other == Verdict::Violated {
            Verdict::Violated
        } else if self == Verdict::Inconclusive || other == Verdict::Inconclusive {
            Verdict::Inconclusive
        } else {
            Verdict::Satisfied
        }
    }

    /// Disjunction of verdicts: satisfied if either is, violated if both are.
    pub open spec fn spec_or(self, other: Verdict) -> Verdict {
        if self == Verdict::Satisfied || other == Verdict::Satisfied {
            Verdict::Satisfied
        } else if self == Verdict::Inconclusive || other == Verdict::Inconclusive {
            Verdict::Inconclusive
        } else {
            Verdict::Violated
        }
    }

    /// Implication of verdicts: satisfied when the premise is violated, the
    /// conclusion's verdict when the premise is satisfied.
    pub open spec fn spec_implies(self, other: Verdict) -> Verdict {
        match self {
            Verdict::Violated => Verdict::Satisfied,
            Verdict::Inconclusive => Verdict::Inconclusive,
            Verdict::Satisfied => other,
        }
    }

    /// Combine two verdicts for a conjunction-like composition.
    pub fn and(self, other: Verdict) -> (r: Verdict)
        ensures
            r == self.spec_and(other),
    {
        match (self, other) {
            (Verdict::Violated, _) | (_, Verdict::Violated) => Verdict::Violated,
            (Verdict::Inconclusive, _) | (_, Verdict::Inconclusive) => Verdict::Inconclusive,
            (Verdict::Satisfied, Verdict::Satisfied) => Verdict::Satisfied,
        }
    }

    /// Combine two verdicts for a disjunction-like composition.
    pub fn or(self, other: Verdict) -> (r: Verdict)
        ensures
            r == self.spec_or(other),
    {
        match (self, other) {
            (Verdict::Satisfied, _) | (_, Verdict::Satisfied) => Verdict::Satisfied,
            (Verdict::Inconclusive, _) | (_, Verdict::Inconclusive) => Verdict::Inconclusive,
            (Verdict::Violated, Verdict::Violated) => Verdict::Violated,
        }
    }

    /// Combine two verdicts as an implication.
    pub fn implies(self, other: Verdict) -> (r: Verdict)
        ensures
            r == self.spec_implies(other),
    {
        match self {
            Verdict::Violated => Verdict::Satisfied,
            Verdict::Inconclusive => Verdict::Inconclusive,
            Verdict::Satisfied => other,
        }
    }
}

/// Conjunction and disjunction of verdicts are commutative and associative,
/// and implication agrees with "not premise, or conclusion" when the premise
/// is decided.
pub proof fn lemma_verdict_algebra(a: Verdict, b: Verdict, c: Verdict)
    ensures
        a.spec_and(b) == b.spec_and(a),
        a.spec_or(b) == b.spec_or(a),
        a.spec_and(b).spec_and(c) == a.spec_and(b.spec_and(c)),
        a.spec_or(b).spec_or(c) == a.spec_or(b.spec_or(c)),
        a == Verdict::Satisfied ==> a.spec_implies(b) == b,
        a == Verdict::Violated ==> a.spec_implies(b) == Verdict::Satisfied,
{
}

/// The verdict a decided or undecided evaluation reports.
pub open spec fn verdict_of(r: Option<bool>) -> Verdict {
    match r {
        Some(true) => Verdict::Satisfied,
        Some(false) => Verdict::Violated,
        None => Verdict::Inconclusive,
    }
}

/// The three-valued meaning of `f` at position `i` of a finite trace:
/// `Some(b)` when the prefix already decides it, `None` when more trace is
/// needed.
pub open spec fn holds(f: Formula, t: Seq<Set<Seq<char>>>, i: int) -> Option<bool>
    decreases f, t.len() + 2,
{
    match f {
        Formula::Atom(a) => if 0 <= i < t.len() { Some(t[i].contains(a.0@)) } else { None },
        Formula::Not(g) => match holds(*g, t, i) {
            Some(b) => Some(!b),
            None => None,
        },
        Formula::And(a, b) => match (holds(*a, t, i), holds(*b, t, i)) {
            (Some(false), _) => Some(false),
            (_, Some(false)) => Some(false),
            (Some(true), Some(true)) => Some(true),
            _ => None,
        },
        Formula::Or(a, b) => match (holds(*a, t, i), holds(*b, t, i)) {
            (Some(true), _) => Some(true),
            (_, Some(true)) => Some(true),
            (Some(false), Some(false)) => Some(false),
            _ => None,
        },
        Formula::Implies(a, b) => match (holds(*a, t, i), holds(*b, t, i)) {
            (Some(false), _) => Some(true),
            (_, Some(true)) => Some(true),
            (Some(true), Some(false)) => Some(false),
            _ => None,
        },
        Formula::Globally(_) => if 0 <= i < t.len() { globally_from(f, t, i) } else { None },
        Formula::Eventually(_) => if 0 <= i < t.len() { eventually_from(f, t, i) } else { None },
        Formula::Next(g) => if 0 <= i && i + 1 < t.len() { holds(*g, t, i + 1) } else { None },
        Formula::Until(_, _) => if 0 <= i < t.len() { until_from(f, t, i) } else { None },
    }
}

/// An implication means "not the premise, or the conclusion", in all three
/// values: in particular a premise decided true with a conclusion decided
/// false is a definite violation, and a false premise or a true conclusion
/// satisfies it.
pub proof fn lemma_implies_is_not_or(a: Formula, b: Formula, t: Seq<Set<Seq<char>>>, i: int)
    ensures
        holds(Formula::Implies(Box::new(a), Box::new(b)), t, i)
            == holds(Formula::Or(Box::new(Formula::Not(Box::new(a))), Box::new(b)), t, i),
        holds(a, t, i) == Some(true) && holds(b, t, i) == Some(false)
            ==> holds(Formula::Implies(Box::new(a), Box::new(b)), t, i) == Some(false),
        holds(a, t, i) == Some(false) ==> holds(Formula::Implies(Box::new(a), Box::new(b)), t, i) == Some(true),
        holds(b, t, i) == Some(true) ==> holds(Formula::Implies(Box::new(a), Box::new(b)), t, i) == Some(true),
{
    lemma_not_value(a, t, i);
}

/// The meaning of a negation, one level down.
proof fn lemma_not_value(a: Formula, t: Seq<Set<Seq<char>>>, i: int)
    ensures
        holds(Formula::Not(Box::new(a)), t, i) == match holds(a, t, i) {
            Some(v) => Some(!v),
            None => None,
        },
{
}

/// De Morgan's laws hold of the three-valued meaning: negating a
/// conjunction is the disjunction of the negations, and the other way round.
pub proof fn lemma_de_morgan(a: Formula, b: Formula, t: Seq<Set<Seq<char>>>, i: int)
    ensures
        holds(Formula::Not(Box::new(Formula::And(Box::new(a), Box::new(b)))), t, i)
            == holds(Formula::Or(Box::new(Formula::Not(Box::new(a))), Box::new(Formula::Not(Box::new(b)))), t, i),
        holds(Formula::Not(Box::new(Formula::Or(Box::new(a), Box::new(b)))), t, i)
            == holds(Formula::And(Box::new(Formula::Not(Box::new(a))), Box::new(Formula::Not(Box::new(b)))), t, i),
{
    lemma_not_value(a, t, i);
    lemma_not_value(b, t, i);
    lemma_not_value(Formula::And(Box::new(a), Box::new(b)), t, i);
    lemma_not_value(Formula::Or(Box::new(a), Box::new(b)), t, i);
}

/// `G g` from position `j` on: the verdict at the first position where `g`
/// is not decided true (violated or undecided), and undecided when there is
/// none in the prefix, since a finite prefix never confirms `G`.
pub open spec fn globally_from(f: Formula, t: Seq<Set<Seq<char>>>, j: int) -> Option<bool>
    decreases f, t.len() - j + 1,
{
    match f {
        Formula::Globally(g) => if 0 <= j < t.len() {
            match holds(*g, t, j) {
                Some(false) => Some(false),
                None => None,
                Some(true) => globally_from(f, t, j + 1),
            }
        } else {
            None
        },
        _ => None,
    }
}

/// `F g` from position `j` on: true once `g` is decided true at some
/// position, undecided otherwise.
pub open spec fn eventually_from(f: Formula, t: Seq<Set<Seq<char>>>, j: int) -> Option<bool>
    decreases f, t.len() - j + 1,
{
    match f {
        Formula::Eventually(g) => if 0 <= j < t.len() {
            if holds(*g, t, j) == Some(true) {
                Some(true)
            } else {
                eventually_from(f, t, j + 1)
            }
        } else {
            None
        },
        _ => None,
    }
}

/// `a U b` from position `j` on, read with three values: it holds at `j` when
/// `b` does, or when `a` does and it holds again at `j + 1`; it fails at `j`
/// when `b` fails there and either `a` fails there or it fails at `j + 1`.
/// Past the end of the prefix it is undecided.  A verdict is reached only
/// where every extension of the prefix would give the same one.
pub open spec fn until_from(f: Formula, t: Seq<Set<Seq<char>>>, j: int) -> Option<bool>
    decreases f, t.len() - j + 1,
{
    match f {
        Formula::Until(a, b) => if 0 <= j < t.len() {
            let hb = holds(*b, t, j);
            let ha = holds(*a, t, j);
            if hb == Some(true) {
                Some(true)
            } else if ha == Some(false) {
                if hb == Some(false) { Some(false) } else { None }
            } else {
                let rest = until_from(f, t, j + 1);
                if ha == Some(true) && rest == Some(true) {
                    Some(true)
                } else if hb == Some(false) && rest == Some(false) {
                    Some(false)
                } else {
                    None
                }
            }
        } else {
            None
        },
        _ => None,
    }
}

/// One position of `a U b`: the verdict at `j` from the verdicts of `b` and
/// `a` there and of `a U b` at `j + 1`.
pub open spec fn until_step(hb: Option<bool>, ha: Option<bool>, rest: Option<bool>) -> Option<bool> {
    if hb == Some(true) {
        Some(true)
    } else if ha == Some(false) {
        if hb == Some(false) { Some(false) } else { None }
    } else if ha == Some(true) && rest == Some(true) {
        Some(true)
    } else if hb == Some(false) && rest == Some(false) {
        Some(false)
    } else {
        None
    }
}

proof fn lemma_globally_stable(f: Formula, t: Seq<Set<Seq<char>>>, e: Seq<Set<Seq<char>>>, j: int)
    requires
        f is Globally,
        globally_from(f, t, j) is Some,
    ensures
        globally_from(f, t + e, j) == globally_from(f, t, j),
    decreases f, t.len() - j + 1,
{
    if let Formula::Globally(g) = f {
        if 0 <= j < t.len() {
            lemma_decided_stable(*g, t, e, j);
            if holds(*g, t, j) == Some(true) {
                lemma_globally_stable(f, t, e, j + 1);
            }
        }
    }
}

proof fn lemma_eventually_stable(f: Formula, t: Seq<Set<Seq<char>>>, e: Seq<Set<Seq<char>>>, j: int)
    requires
        f is Eventually,
        eventually_from(f, t, j) is Some,
    ensures
        eventually_from(f, t + e, j) == eventually_from(f, t, j),
    decreases f, t.len() - j + 1,
{
    if let Formula::Eventually(g) = f {
        if 0 <= j < t.len() {
            if holds(*g, t, j) == Some(true) {
                lemma_decided_stable(*g, t, e, j);
            } else {
                lemma_eventually_stable(f, t, e, j + 1);
                lemma_eventually_never_false(f, t, j + 1);
            }
        }
    }
}

proof fn lemma_eventually_never_false(f: Formula, t: Seq<Set<Seq<char>>>, j: int)
    ensures
        eventually_from(f, t, j) != Some(false),
    decreases t.len() - j + 1,
{
    if let Formula::Eventually(g) = f {
        if 0 <= j < t.len() && holds(*g, t, j) != Some(true) {
            lemma_eventually_never_false(f, t, j + 1);
        }
    }
}

proof fn lemma_globally_never_true(f: Formula, t: Seq<Set<Seq<char>>>, j: int)
    ensures
        globally_from(f, t, j) != Some(true),
    decreases t.len() - j + 1,
{
    if let Formula::Globally(g) = f {
        if 0 <= j < t.len() && holds(*g, t, j) == Some(true) {
            lemma_globally_never_true(f, t, j + 1);
        }
    }
}

proof fn lemma_until_stable(f: Formula, t: Seq<Set<Seq<char>>>, e: Seq<Set<Seq<char>>>, j: int)
    requires
        f is Until,
        until_from(f, t, j) is Some,
    ensures
        until_from(f, t + e, j) == until_from(f, t, j),
    decreases f, t.len() - j + 1,
{
    if let Formula::Until(a, b) = f {
        if 0 <= j < t.len() {
            if holds(*b, t, j) is Some {
                lemma_decided_stable(*b, t, e, j);
            }
            if holds(*a, t, j) is Some {
                lemma_decided_stable(*a, t, e, j);
            }
            if holds(*b, t, j) != Some(true) && holds(*a, t, j) != Some(false) && until_from(f, t, j + 1) is Some {
                lemma_until_stable(f, t, e, j + 1);
            }
        }
    }
}

/// The decided meaning of a formula does not change when the trace is
/// extended.
proof fn lemma_decided_stable(f: Formula, t: Seq<Set<Seq<char>>>, e: Seq<Set<Seq<char>>>, i: int)
    requires
        holds(f, t, i) is Some,
    ensures
        holds(f, t + e, i) == holds(f, t, i),
    decreases f, t.len() + 2,
{
    match f {
        Formula::Atom(_) => {
            assert((t + e)[i] == t[i]);
        },
        Formula::Not(g) => {
            lemma_decided_stable(*g, t, e, i);
        },
        Formula::And(a, b) => {
            if holds(*a, t, i) is Some {
                lemma_decided_stable(*a, t, e, i);
            }
            if holds(*b, t, i) is Some {
                lemma_decided_stable(*b, t, e, i);
            }
        },
        Formula::Or(a, b) => {
            if holds(*a, t, i) is Some {
                lemma_decided_stable(*a, t, e, i);
            }
            if holds(*b, t, i) is Some {
                lemma_decided_stable(*b, t, e, i);
            }
        },
        Formula::Implies(a, b) => {
            if holds(*a, t, i) is Some {
                lemma_decided_stable(*a, t, e, i);
            }
            if holds(*b, t, i) is Some {
                lemma_decided_stable(*b, t, e, i);
            }
        },
        Formula::Globally(_) => {
            lemma_globally_stable(f, t, e, i);
        },
        Formula::Eventually(_) => {
            lemma_eventually_stable(f, t, e, i);
        },
        Formula::Next(g) => {
            lemma_decided_stable(*g, t, e, i + 1);
        },
        Formula::Until(_, _) => {
            lemma_until_stable(f, t, e, i);
        },
    }
}

/// Once the monitor reports a definite verdict (`Satisfied` or `Violated`),
/// observing further steps never changes it.
pub proof fn lemma_definite_verdict_is_final(
    spec: Formula,
    t: Seq<Set<Seq<char>>>,
    more: Seq<Set<Seq<char>>>,
)
    requires
        verdict_of(holds(spec, t, 0)) != Verdict::Inconclusive,
    ensures
        verdict_of(holds(spec, t + more, 0)) == verdict_of(holds(spec, t, 0)),
{
    lemma_decided_stable(spec, t, more, 0);
}

/// A finite trace never confirms `G g`: its verdict is never `Satisfied`.
pub proof fn lemma_globally_never_satisfied(g: Formula, t: Seq<Set<Seq<char>>>)
    ensures
        verdict_of(holds(Formula::Globally(Box::new(g)), t, 0)) != Verdict::Satisfied,
{
    lemma_globally_never_true(Formula::Globally(Box::new(g)), t, 0);
}

/// A finite trace never refutes `F g`: its verdict is never `Violated`.
pub proof fn lemma_eventually_never_violated(g: Formula, t: Seq<Set<Seq<char>>>)
    ensures
        verdict_of(holds(Formula::Eventually(Box::new(g)), t, 0)) != Verdict::Violated,
{
    lemma_eventually_never_false(Formula::Eventually(Box::new(g)), t, 0);
}

/// `holds(f, t, i)`: `Some(true/false)` if the verdict is already decided
/// at position `i`, `None` if more trace is needed.
#[verifier::loop_isolation(false)]
fn eval(f: &Formula, t: &Trace, i: usize) -> (r: Option<bool>)
    requires
        i <= t@.len(),
    ensures
        r == holds(*f, t@, i as int),
    decreases *f,
{
    let n = t.len();
    match f {
        Formula::Atom(a) => {
            if i >= n {
                None
            } else {
                proof {
                    assert(t@[i as int] == t.steps@[i as int]@);
                }
                Some(t.steps[i].has(a.0.as_str()))
            }
        },
        Formula::Not(g) => match eval(g, t, i) {
            Some(b) => Some(!b),
            None => None,
        },
        Formula::And(a, b) => match (eval(a, t, i), eval(b, t, i)) {
            (Some(false), _) | (_, Some(false)) => Some(false),
            (Some(true), Some(true)) => Some(true),
            _ => None,
        },
        Formula::Or(a, b) => match (eval(a, t, i), eval(b, t, i)) {
            (Some(true), _) | (_, Some(true)) => Some(true),
            (Some(false), Some(false)) => Some(false),
            _ => None,
        },
        Formula::Implies(a, b) => match (eval(a, t, i), eval(b, t, i)) {
            (Some(false), _) => Some(true),
            (_, Some(true)) => Some(true),
            (Some(true), Some(false)) => Some(false),
            _ => None,
        },
        Formula::Globally(g) => {
            let mut j = i;
            while j < n
                invariant
                    i <= j <= n,
                    n == t@.len(),
                    globally_from(*f, t@, i as int) == globally_from(*f, t@, j as int),
                decreases n - j,
            {
                match eval(g, t, j) {
                    Some(false) => return Some(false),
                    None => return None,
                    Some(true) => {},
                }
                j += 1;
            }
            None
        },
        Formula::Eventually(g) => {
            let mut j = i;
            while j < n
                invariant
                    i <= j <= n,
                    n == t@.len(),
                    eventually_from(*f, t@, i as int) == eventually_from(*f, t@, j as int),
                decreases n - j,
            {
                match eval(g, t, j) {
                    Some(true) => return Some(true),
                    _ => {},
                }
                j += 1;
            }
            None
        },
        Formula::Next(g) => {
            if n == 0 || i >= n - 1 {
                None
            } else {
                eval(g, t, i + 1)
            }
        },
        Formula::Until(a, b) => {
            // Read the prefix backwards from its end, where `a U b` is
            // undecided, down to position `i`.
            let mut acc: Option<bool> = None;
            let mut j = n;
            while j > i
                invariant
                    i <= j <= n,
                    n == t@.len(),
                    acc == until_from(*f, t@, j as int),
                decreases j,
            {
                j -= 1;
                let hb = eval(b, t, j);
                let ha = eval(a, t, j);
                proof {
                    assert(until_from(*f, t@, j as int) == until_step(hb, ha, acc));
                }
                acc = if hb == Some(true) {
                    Some(true)
                } else if ha == Some(false) {
                    if hb == Some(false) { Some(false) } else { None }
                } else if ha == Some(true) && acc == Some(true) {
                    Some(true)
                } else if hb == Some(false) && acc == Some(false) {
                    Some(false)
                } else {
                    None
                };
            }
            acc
        },
    }
}

/// A runtime monitor for a [`Formula`] over a growing [`Trace`].
///
/// The monitor is pure with respect to the accumulated trace: each new step is
/// appended and the whole prefix is re-evaluated.
pub struct Monitor {
    spec: Formula,
    trace: Trace,
}

impl Monitor {
    /// The monitored specification.
    pub closed spec fn spec_formula(self) -> Formula {
        self.spec
    }

    /// The accumulated trace.
    pub closed spec fn spec_trace(self) -> Seq<Set<Seq<char>>> {
        self.trace@
    }

    /// Create a monitor for the given specification.
    pub fn new(spec: Formula) -> (r: Monitor)
        ensures
            r.spec_formula() == spec,
            r.spec_trace() == Seq::<Set<Seq<char>>>::empty(),
    {
        Monitor { spec, trace: Trace::new() }
    }

    /// Append one observed step and update the verdict.
    pub fn observe(&mut self, step: &Step)
        ensures
            final(self).spec_formula() == old(self).spec_formula(),
            final(self).spec_trace() == old(self).spec_trace().push(step@),
    {
        self.trace.push(step.clone());
    }

    /// Append a whole sub-trace.
    pub fn observe_trace(&mut self, trace: &Trace)
        ensures
            final(self).spec_formula() == old(self).spec_formula(),
            final(self).spec_trace() == old(self).spec_trace() + trace@,
    {
        let steps = trace.steps();
        let mut i: usize = 0;
        while i < steps.len()
            invariant
                0 <= i <= steps@.len(),
                steps@.map_values(|s: Step| s@) == trace@,
                self.spec_formula() == old(self).spec_formula(),
                self.spec_trace() == old(self).spec_trace() + trace@.subrange(0, i as int),
            decreases steps@.len() - i,
        {
            proof {
                assert(trace@.subrange(0, i + 1) == trace@.subrange(0, i as int).push(steps@[i as int]@));
            }
            self.trace.push(steps[i].clone());
            i += 1;
        }
        proof {
            assert(trace@.subrange(0, i as int) == trace@);
        }
    }

    /// The current trace prefix.
    pub fn trace(&self) -> (r: &Trace)
        ensures
            r@ == self.spec_trace(),
    {
        &self.trace
    }

    /// The current verdict over the accumulated prefix: the verdict of
    /// [`Monitor::check`] on the monitored specification and trace.
    pub fn verdict(&self) -> (r: Verdict)
        ensures
            r == verdict_of(holds(self.spec_formula(), self.spec_trace(), 0)),
    {
        match eval(&self.spec, &self.trace, 0) {
            Some(true) => Verdict::Satisfied,
            Some(false) => Verdict::Violated,
            None => Verdict::Inconclusive,
        }
    }

    /// Evaluate the specification against an explicit trace from the start.
    pub fn check(spec: &Formula, trace: &Trace) -> (r: Verdict)
        ensures
            r == verdict_of(holds(*spec, trace@, 0)),
    {
        match eval(spec, trace, 0) {
            Some(true) => Verdict::Satisfied,
            Some(false) => Verdict::Violated,
            None => Verdict::Inconclusive,
        }
    }
}

} // verus!
