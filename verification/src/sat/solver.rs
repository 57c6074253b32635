//! The conflict-driven clause-learning core of the solver.
//!
//! The core keeps the assignment trail, the decision levels, the reason of
//! every implied literal and the two-watched-literal lists, and runs unit
//! propagation, first-UIP conflict analysis, clause learning, backjumping
//! and the geometric restart schedule.  Which variable to branch on next is
//! not decided here: a round of [`Solver::step`] reports
//! [`Step::Decide`] when the search needs a decision, names the variables
//! that took part in each conflict ([`Step::Learned`]) so that a caller can
//! keep its own branching scores, and [`Solver::decide`] applies the choice.
//!
//! Every clause the core stores (given or learned) is implied by the given
//! formula, so an `Unsat` answer is sound; a `Sat` answer is checked against
//! the stored clauses before it is given, so its model satisfies the formula.
use vstd::prelude::*;
use super::{Lit, Var, Clause, Cnf, SatResult, lit_true, clause_sat, lemma_lit_code, lemma_lit_eq, lemma_neg};

verus! {

/// `a` is a total assignment of `n` variables satisfying every clause of `f`.
pub open spec fn models(f: Seq<Seq<Lit>>, n: nat, a: Seq<bool>) -> bool {
    &&& a.len() == n
    &&& forall|i: int| 0 <= i < f.len() ==> clause_sat(#[trigger] f[i], a)
}

/// Some total assignment of `n` variables satisfies every clause of `f`.
pub open spec fn satisfiable(f: Seq<Seq<Lit>>, n: nat) -> bool {
    exists|a: Seq<bool>| models(f, n, a)
}

/// A formula's clauses over its variables are satisfiable exactly when the
/// formula is.
pub proof fn lemma_satisfiable_cnf(cnf: Cnf)
    ensures
        satisfiable(cnf.spec_clauses(), cnf.spec_vars()) == cnf.satisfiable(),
{
    if cnf.satisfiable() {
        let a = choose|a: Seq<bool>| cnf.sat_by(a);
        assert(models(cnf.spec_clauses(), cnf.spec_vars(), a));
    }
    if satisfiable(cnf.spec_clauses(), cnf.spec_vars()) {
        let a = choose|a: Seq<bool>| models(cnf.spec_clauses(), cnf.spec_vars(), a);
        assert(cnf.sat_by(a));
    }
}

/// Every model of `f` satisfies the clause `c`.
pub open spec fn implied(f: Seq<Seq<Lit>>, n: nat, c: Seq<Lit>) -> bool {
    forall|a: Seq<bool>| #[trigger] models(f, n, a) ==> clause_sat(c, a)
}

/// Every model of `f` makes the literal `l` true.
pub open spec fn implied_lit(f: Seq<Seq<Lit>>, n: nat, l: Lit) -> bool {
    forall|a: Seq<bool>| #[trigger] models(f, n, a) ==> lit_true(l, a)
}

/// A sequence of literals over distinct variables in `0..n`, none of them
/// `v`, is shorter than `n`.
proof fn lemma_distinct_vars_len(t: Seq<Lit>, pos: Seq<int>, n: int, v: int)
    requires
        0 <= v < n,
        forall|j: int| 0 <= j < t.len() ==> {
            &&& 0 <= (#[trigger] t[j]).spec_var() < n
            &&& t[j].spec_var() != v
            &&& pos[t[j].spec_var() as int] == j
        },
    ensures
        t.len() < n,
{
    let idx = vstd::set_lib::set_int_range(0, t.len() as int);
    let f = |j: int| t[j].spec_var() as int;
    let img = idx.map(f);
    vstd::set_lib::lemma_int_range(0, t.len() as int);
    vstd::set_lib::lemma_int_range(0, n);
    assert(vstd::relations::injective_on(f, idx)) by {
        assert forall|a: int, b: int| idx.contains(a) && idx.contains(b) && #[trigger] f(a) == #[trigger] f(b) implies a == b by {
            assert(pos[t[a].spec_var() as int] == a);
            assert(pos[t[b].spec_var() as int] == b);
        }
    }
    vstd::set_lib::lemma_map_size(idx, img, f);
    let range = vstd::set_lib::set_int_range(0, n).remove(v);
    assert(img.subset_of(range)) by {
        assert forall|x: int| #[trigger] img.contains(x) implies range.contains(x) by {
            let j = choose|j: int| idx.contains(j) && f(j) == x;
            assert(0 <= t[j].spec_var() < n);
        }
    }
    vstd::set_lib::lemma_len_subset(img, range);
}

/// `s` with the elements at `i` and `j` exchanged.
pub open spec fn swapped<A>(s: Seq<A>, i: int, j: int) -> Seq<A> {
    s.update(i, s[j]).update(j, s[i])
}

/// Exchanging two literals of a clause changes neither which assignments
/// satisfy it nor which literals it holds.
proof fn lemma_swapped(s: Seq<Lit>, i: int, j: int)
    requires
        0 <= i < s.len(),
        0 <= j < s.len(),
    ensures
        swapped(s, i, j).len() == s.len(),
        forall|a: Seq<bool>| clause_sat(swapped(s, i, j), a) == #[trigger] clause_sat(s, a),
        forall|k: int| #![trigger s[k]] 0 <= k < s.len() ==> exists|m: int| 0 <= m < s.len() && #[trigger] swapped(s, i, j)[m] == s[k],
        forall|m: int| #![trigger swapped(s, i, j)[m]] 0 <= m < s.len() ==> exists|k: int| 0 <= k < s.len() && swapped(s, i, j)[m] == #[trigger] s[k],
{
    let t = swapped(s, i, j);
    assert forall|a: Seq<bool>| clause_sat(t, a) == #[trigger] clause_sat(s, a) by {
        if clause_sat(s, a) {
            let k = choose|k: int| 0 <= k < s.len() && lit_true(#[trigger] s[k], a);
            let m = if k == i { j } else if k == j { i } else { k };
            assert(t[m] == s[k]);
        }
        if clause_sat(t, a) {
            let m = choose|m: int| 0 <= m < t.len() && lit_true(#[trigger] t[m], a);
            let k = if m == i { j } else if m == j { i } else { m };
            assert(t[m] == s[k]);
        }
    }
    assert forall|k: int| #![trigger s[k]] 0 <= k < s.len() implies exists|m: int| 0 <= m < s.len() && #[trigger] t[m] == s[k] by {
        let m = if k == i { j } else if k == j { i } else { k };
        assert(t[m] == s[k]);
    }
    assert forall|m: int| #![trigger t[m]] 0 <= m < s.len() implies exists|k: int| 0 <= k < s.len() && t[m] == #[trigger] s[k] by {
        let k = if m == i { j } else if m == j { i } else { m };
        assert(t[m] == s[k]);
    }
}

#[verifier::inline]
spec fn val_true(a: Seq<i8>, l: Lit) -> bool {
    a[l.spec_var() as int] == (if l.spec_is_neg() { -1i8 } else { 1i8 })
}

/// Some literal of `ls` has its negation earlier in `ls`.
spec fn has_complement(ls: Seq<Lit>) -> bool {
    exists|i: int, j: int| 0 <= i < j < ls.len() && #[trigger] ls[i] == (#[trigger] ls[j]).spec_neg()
}

/// No literal occurs twice in `ls`.
spec fn lits_distinct(ls: Seq<Lit>) -> bool {
    forall|i: int, j: int| 0 <= i < j < ls.len() ==> #[trigger] ls[i] != #[trigger] ls[j]
}

/// Exchanging two literals keeps them distinct.
proof fn lemma_distinct_swap(s: Seq<Lit>, i: int, j: int)
    requires
        lits_distinct(s),
        0 <= i < s.len(),
        0 <= j < s.len(),
    ensures
        lits_distinct(swapped(s, i, j)),
{
    let l = swapped(s, i, j);
    assert forall|i1: int, j1: int| 0 <= i1 < j1 < l.len() implies #[trigger] l[i1] != #[trigger] l[j1] by {
        let m1 = if i1 == i { j } else if i1 == j { i } else { i1 };
        let m2 = if j1 == i { j } else if j1 == j { i } else { j1 };
        assert(l[i1] == s[m1]);
        assert(l[j1] == s[m2]);
        if m1 < m2 {
            assert(s[m1] != s[m2]);
        } else {
            assert(s[m2] != s[m1]);
        }
    }
}

/// `ls` with each literal kept at its first occurrence only.
spec fn first_occurrences(ls: Seq<Lit>) -> Seq<Lit>
    decreases ls.len(),
{
    if ls.len() == 0 {
        Seq::empty()
    } else {
        let d = first_occurrences(ls.drop_last());
        if d.contains(ls.last()) { d } else { d.push(ls.last()) }
    }
}

#[verifier::inline]
spec fn val_false(a: Seq<i8>, l: Lit) -> bool {
    a[l.spec_var() as int] == (if l.spec_is_neg() { 1i8 } else { -1i8 })
}

#[verifier::inline]
spec fn lvl_start(tl: Seq<usize>, k: int) -> int {
    if k == 0 { 0 } else { tl[k - 1] as int }
}

#[verifier::inline]
spec fn lvl_end(tl: Seq<usize>, tlen: int, k: int) -> int {
    if k < tl.len() { tl[k] as int } else { tlen }
}

spec fn assigns_ok(a: Seq<i8>, n: int) -> bool {
    forall|v: int| 0 <= v < n ==> -1 <= #[trigger] a[v] <= 1
}

spec fn clean_ok(a: Seq<i8>, lvl: Seq<i32>, rs: Seq<Option<usize>>, n: int) -> bool {
    forall|v: int| 0 <= v < n && #[trigger] a[v] == 0 ==> lvl[v] == 0 && rs[v] is None
}

spec fn clauses_ok(cls: Seq<Clause>, n: int) -> bool {
    &&& forall|c: int| 0 <= c < cls.len() ==> (#[trigger] cls[c].lits@).len() >= 1
    &&& forall|c: int, k: int| 0 <= c < cls.len() && 0 <= k < cls[c].lits@.len()
        ==> (#[trigger] cls[c].lits@[k]).spec_var() < n
}

/// A watch names a stored clause and a blocker over the variables.
spec fn watch_ok(w: Watcher, n: int, ncl: int) -> bool {
    w.cref < ncl && w.blocker.spec_var() < n
}

spec fn watches_ok(ws: Seq<Vec<Watcher>>, n: int, ncl: int) -> bool {
    forall|i: int, w: int| 0 <= i < 2 * n && 0 <= w < ws[i]@.len() ==> watch_ok(#[trigger] ws[i]@[w], n, ncl)
}

spec fn trail_ok(t: Seq<Lit>, a: Seq<i8>, lvl: Seq<i32>, pos: Seq<int>, tl: Seq<usize>, qhead: int, n: int) -> bool {
    &&& t.len() <= n
    &&& qhead <= t.len()
    &&& tl.len() <= t.len()
    &&& forall|j: int| #![trigger t[j]] 0 <= j < t.len() ==> {
        &&& 0 <= t[j].spec_var() < n
        &&& val_true(a, t[j])
        &&& pos[t[j].spec_var() as int] == j
        &&& 0 <= lvl[t[j].spec_var() as int] <= tl.len()
        &&& lvl_start(tl, lvl[t[j].spec_var() as int] as int) <= j < lvl_end(tl, t.len() as int, lvl[t[j].spec_var() as int] as int)
    }
    &&& forall|v: int| 0 <= v < n && a[v] != 0 ==> 0 <= #[trigger] pos[v] < t.len() && t[pos[v]].spec_var() == v
    &&& forall|k: int| 0 <= k < tl.len() ==> k <= #[trigger] tl[k] < t.len()
    &&& forall|k1: int, k2: int| 0 <= k1 < k2 < tl.len() ==> #[trigger] tl[k1] < #[trigger] tl[k2]
    &&& tl.len() > 0 ==> qhead >= tl[tl.len() - 1]
}

spec fn reason_ok_at(rs: Seq<Option<usize>>, a: Seq<i8>, lvl: Seq<i32>, cls: Seq<Clause>, t: Seq<Lit>, pos: Seq<int>, tl: Seq<usize>, v: int) -> bool {
    match rs[v] {
        Some(c) => {
            &&& a[v] != 0
            &&& c < cls.len()
            &&& cls[c as int].lits@[0] == t[pos[v]]
            &&& forall|k: int| 1 <= k < cls[c as int].lits@.len() ==> {
                &&& val_false(a, #[trigger] cls[c as int].lits@[k])
                &&& pos[cls[c as int].lits@[k].spec_var() as int] < pos[v]
            }
        },
        None => a[v] != 0 ==> (lvl[v] == 0 || pos[v] == tl[lvl[v] - 1]),
    }
}

spec fn reasons_ok(rs: Seq<Option<usize>>, a: Seq<i8>, lvl: Seq<i32>, cls: Seq<Clause>, t: Seq<Lit>, pos: Seq<int>, tl: Seq<usize>, n: int) -> bool {
    forall|v: int| 0 <= v < n ==> #[trigger] reason_ok_at(rs, a, lvl, cls, t, pos, tl, v)
}

spec fn implied_ok(f: Seq<Seq<Lit>>, n: nat, cls: Seq<Clause>, t: Seq<Lit>, lvl: Seq<i32>) -> bool {
    &&& forall|c: int| 0 <= c < cls.len() ==> implied(f, n, #[trigger] cls[c].lits@)
    &&& forall|j: int| 0 <= j < t.len() && lvl[t[j].spec_var() as int] == 0 ==> implied_lit(f, n, #[trigger] t[j])
}

/// `cls2` is `cls` with two literals of clause `cref` exchanged.
spec fn swapped_at(cls: Seq<Clause>, cls2: Seq<Clause>, cref: int, i: int, j: int) -> bool {
    &&& cls2.len() == cls.len()
    &&& 0 <= cref < cls.len()
    &&& 0 <= i < cls[cref].lits@.len()
    &&& 0 <= j < cls[cref].lits@.len()
    &&& cls2[cref].lits@ == swapped(cls[cref].lits@, i, j)
    &&& forall|c: int| 0 <= c < cls.len() && c != cref ==> #[trigger] cls2[c] == cls[c]
}

proof fn lemma_swap_clauses_ok(cls: Seq<Clause>, cls2: Seq<Clause>, cref: int, i: int, j: int, n: int)
    requires
        clauses_ok(cls, n),
        swapped_at(cls, cls2, cref, i, j),
    ensures
        clauses_ok(cls2, n),
{
    let s0 = cls[cref].lits@;
    lemma_swapped(s0, i, j);
    assert forall|c: int, k: int| 0 <= c < cls2.len() && 0 <= k < cls2[c].lits@.len()
        implies (#[trigger] cls2[c].lits@[k]).spec_var() < n by {
        if c == cref {
            assert(exists|m: int| 0 <= m < s0.len() && swapped(s0, i, j)[k] == s0[m]);
            let m = choose|m: int| 0 <= m < s0.len() && swapped(s0, i, j)[k] == s0[m];
        } else {
            assert(cls2[c] == cls[c]);
        }
    }
    assert forall|c: int| 0 <= c < cls2.len() implies (#[trigger] cls2[c].lits@).len() >= 1 by {
        if c != cref {
            assert(cls2[c] == cls[c]);
        }
    }
}

proof fn lemma_swap_reasons_ok(cls: Seq<Clause>, cls2: Seq<Clause>, cref: int, rs: Seq<Option<usize>>, a: Seq<i8>, lvl: Seq<i32>, t: Seq<Lit>, pos: Seq<int>, tl: Seq<usize>, n: int)
    requires
        reasons_ok(rs, a, lvl, cls, t, pos, tl, n),
        cls2.len() == cls.len(),
        forall|c: int| 0 <= c < cls.len() && c != cref ==> #[trigger] cls2[c] == cls[c],
        forall|u: int| 0 <= u < n ==> #[trigger] rs[u] != Some(cref as usize),
        0 <= cref,
    ensures
        reasons_ok(rs, a, lvl, cls2, t, pos, tl, n),
{
    assert forall|u: int| 0 <= u < n implies #[trigger] reason_ok_at(rs, a, lvl, cls2, t, pos, tl, u) by {
        assert(reason_ok_at(rs, a, lvl, cls, t, pos, tl, u));
        if let Some(c) = rs[u] {
            assert(c != cref);
            assert(cls2[c as int] == cls[c as int]);
        }
    }
}

proof fn lemma_swap_implied_ok(cls: Seq<Clause>, cls2: Seq<Clause>, cref: int, i: int, j: int, f: Seq<Seq<Lit>>, n: nat, t: Seq<Lit>, lvl: Seq<i32>)
    requires
        implied_ok(f, n, cls, t, lvl),
        swapped_at(cls, cls2, cref, i, j),
    ensures
        implied_ok(f, n, cls2, t, lvl),
{
    let s0 = cls[cref].lits@;
    lemma_swapped(s0, i, j);
    assert forall|c: int| 0 <= c < cls2.len() implies implied(f, n, #[trigger] cls2[c].lits@) by {
        if c == cref {
            assert(implied(f, n, s0));
            assert forall|aa: Seq<bool>| #[trigger] models(f, n, aa) implies clause_sat(swapped(s0, i, j), aa) by {
                assert(clause_sat(s0, aa));
            }
        } else {
            assert(cls2[c] == cls[c]);
        }
    }
}

/// The number of trail positions `0..=q` whose variable is marked in
/// `seen` and was assigned at level `cur`.
spec fn cnt(t: Seq<Lit>, seen: Seq<bool>, lvl: Seq<i32>, cur: int, q: int) -> int
    decreases q + 1,
{
    if q < 0 {
        0
    } else {
        cnt(t, seen, lvl, cur, q - 1) + (if seen[t[q].spec_var() as int] && lvl[t[q].spec_var() as int] == cur { 1int } else { 0int })
    }
}

proof fn lemma_cnt_bounds(t: Seq<Lit>, seen: Seq<bool>, lvl: Seq<i32>, cur: int, q: int)
    ensures
        0 <= cnt(t, seen, lvl, cur, q),
        q >= -1 ==> cnt(t, seen, lvl, cur, q) <= q + 1,
        cnt(t, seen, lvl, cur, q) > 0 ==> exists|j: int| 0 <= j <= q && #[trigger] seen[t[j].spec_var() as int] && lvl[t[j].spec_var() as int] == cur,
        (exists|j: int| 0 <= j <= q && #[trigger] seen[t[j].spec_var() as int] && lvl[t[j].spec_var() as int] == cur) ==> cnt(t, seen, lvl, cur, q) > 0,
    decreases q + 1,
{
    if q >= 0 {
        lemma_cnt_bounds(t, seen, lvl, cur, q - 1);
    }
}

/// Marking one more variable in `seen` adds one to the count exactly when
/// that variable sits at a position `<= q` and has level `cur`.
proof fn lemma_cnt_mark(t: Seq<Lit>, pos: Seq<int>, seen: Seq<bool>, lvl: Seq<i32>, cur: int, q: int, x: int)
    requires
        0 <= x < seen.len(),
        !seen[x],
        0 <= pos[x] < t.len(),
        t[pos[x]].spec_var() == x,
        q < t.len(),
        forall|j: int| 0 <= j < t.len() ==> pos[(#[trigger] t[j]).spec_var() as int] == j && t[j].spec_var() < seen.len(),
    ensures
        cnt(t, seen.update(x, true), lvl, cur, q) == cnt(t, seen, lvl, cur, q) + (if pos[x] <= q && lvl[x] == cur { 1int } else { 0int }),
    decreases q + 1,
{
    if q >= 0 {
        lemma_cnt_mark(t, pos, seen, lvl, cur, q - 1, x);
        let y = t[q].spec_var() as int;
        if y == x {
            assert(pos[y] == q);
        } else {
            assert(seen.update(x, true)[y] == seen[y]);
            if pos[x] == q {
                assert(t[pos[x]].spec_var() == x);
            }
        }
    }
}

/// Marking a variable that is already marked changes nothing.
proof fn lemma_cnt_same(t: Seq<Lit>, seen: Seq<bool>, seen2: Seq<bool>, lvl: Seq<i32>, cur: int, q: int)
    requires
        forall|j: int| 0 <= j <= q ==> seen2[(#[trigger] t[j]).spec_var() as int] == seen[t[j].spec_var() as int],
    ensures
        cnt(t, seen2, lvl, cur, q) == cnt(t, seen, lvl, cur, q),
    decreases q + 1,
{
    if q >= 0 {
        lemma_cnt_same(t, seen, seen2, lvl, cur, q - 1);
    }
}

/// The formula is the kept input's, over `n` variables.
spec fn input_rel(f: Seq<Seq<Lit>>, input: Cnf, n: int) -> bool {
    &&& f == input.spec_clauses()
    &&& input.spec_vars() == n
    &&& input.wf()
}

/// A watch: clause `cref` watches the literal of the list it sits in;
/// `blocker` is another literal of the clause, checked first.
#[derive(Clone, Copy)]
struct Watcher {
    cref: usize,
    blocker: Lit,
}

/// What one round of the search did.
pub enum Step {
    /// Every variable is assigned and the assignment satisfies the formula.
    Sat,
    /// The formula has no model.
    Unsat,
    /// Propagation is complete, no clause is false, and some variable is
    /// unassigned: the search needs a decision.
    Decide,
    /// A conflict was analysed, a clause learned and the search backjumped;
    /// the listed variables took part in the analysis.
    Learned(Vec<Var>),
}

/// The state of a CDCL search over a fixed formula.
pub struct Solver {
    n_vars: usize,
    clauses: Vec<Clause>,
    watches: Vec<Vec<Watcher>>,
    assigns: Vec<i8>,
    level: Vec<i32>,
    reason: Vec<Option<usize>>,
    trail: Vec<Lit>,
    trail_lim: Vec<usize>,
    qhead: usize,
    polarity: Vec<bool>,
    conflict_count: i32,
    restart_limit: i32,
    unsat: bool,
    input: Cnf,
    formula: Ghost<Seq<Seq<Lit>>>,
    pos: Ghost<Seq<int>>,
}

impl Solver {
    /// The formula being solved.
    pub closed spec fn formula(self) -> Seq<Seq<Lit>> {
        self.formula@
    }

    /// The number of variables.
    pub closed spec fn num_vars(self) -> nat {
        self.n_vars as nat
    }

    /// The current value of each variable (`None`: unassigned).
    pub closed spec fn assignment(self) -> Seq<Option<bool>> {
        Seq::new(self.n_vars as nat, |v: int| if self.assigns@[v] == 1 { Some(true) } else if self.assigns@[v] == -1 { Some(false) } else { None })
    }

    /// The number of conflicts met so far.
    pub closed spec fn conflicts(self) -> int {
        self.conflict_count as int
    }

    /// The conflict count at which the next restart happens.
    pub closed spec fn restart_at(self) -> int {
        self.restart_limit as int
    }

    /// The total assignment that maps each variable to whether it is true.
    pub open spec fn model_of(self) -> Seq<bool> {
        Seq::new(self.num_vars(), |v: int| self.assignment()[v] == Some(true))
    }

    // ----- the representation -----

    #[verifier::inline]
    spec fn is_true(self, l: Lit) -> bool {
        val_true(self.assigns@, l)
    }

    #[verifier::inline]
    spec fn is_false(self, l: Lit) -> bool {
        val_false(self.assigns@, l)
    }

    #[verifier::inline]
    spec fn assigned(self, v: int) -> bool {
        self.assigns@[v] != 0
    }

    #[verifier::inline]
    spec fn lv(self, v: int) -> int {
        self.level@[v] as int
    }

    #[verifier::inline]
    spec fn tv(self, j: int) -> int {
        self.trail@[j].spec_var() as int
    }

    #[verifier::inline]
    spec fn cur(self) -> int {
        self.trail_lim@.len() as int
    }

    #[verifier::inline]
    spec fn lstart(self, k: int) -> int {
        lvl_start(self.trail_lim@, k)
    }

    #[verifier::inline]
    spec fn lend(self, k: int) -> int {
        lvl_end(self.trail_lim@, self.trail@.len() as int, k)
    }

    #[verifier::inline]
    spec fn cl(self, c: int) -> Seq<Lit> {
        self.clauses@[c].lits@
    }

    spec fn inv_shape(self) -> bool {
        let n = self.n_vars as int;
        &&& n < 0x8000_0000
        &&& 0 <= self.conflict_count
        &&& 0 <= self.restart_limit
        &&& self.assigns@.len() == n
        &&& self.level@.len() == n
        &&& self.reason@.len() == n
        &&& self.polarity@.len() == n
        &&& self.pos@.len() == n
        &&& self.watches@.len() == 2 * n
        &&& assigns_ok(self.assigns@, n)
        &&& self.unassigned_clean()
        &&& clauses_ok(self.clauses@, n)
        &&& watches_ok(self.watches@, n, self.clauses@.len() as int)
    }

    /// An unassigned variable has level 0 and no reason.
    #[verifier::inline]
    spec fn unassigned_clean(self) -> bool {
        clean_ok(self.assigns@, self.level@, self.reason@, self.n_vars as int)
    }

    #[verifier::inline]
    spec fn inv_trail(self) -> bool {
        trail_ok(self.trail@, self.assigns@, self.level@, self.pos@, self.trail_lim@, self.qhead as int, self.n_vars as int)
    }

    #[verifier::inline]
    spec fn reason_ok(self, v: int) -> bool {
        reason_ok_at(self.reason@, self.assigns@, self.level@, self.clauses@, self.trail@, self.pos@, self.trail_lim@, v)
    }

    #[verifier::inline]
    spec fn inv_reason(self) -> bool {
        reasons_ok(self.reason@, self.assigns@, self.level@, self.clauses@, self.trail@, self.pos@, self.trail_lim@, self.n_vars as int)
    }

    #[verifier::inline]
    spec fn inv_implied(self) -> bool {
        implied_ok(self.formula@, self.n_vars as nat, self.clauses@, self.trail@, self.level@)
    }

    spec fn inv_answer(self) -> bool {
        self.unsat ==> !satisfiable(self.formula@, self.n_vars as nat)
    }

    spec fn inv_logic(self) -> bool {
        &&& self.inv_implied()
        &&& self.inv_answer()
    }

    /// The invariant of the search state.
    spec fn wf_core(self) -> bool {
        &&& self.inv_shape()
        &&& self.inv_trail()
        &&& self.inv_reason()
        &&& self.inv_logic()
    }

    #[verifier::inline]
    spec fn input_ok(self) -> bool {
        input_rel(self.formula@, self.input, self.n_vars as int)
    }

    spec fn wf_base(self) -> bool {
        &&& self.wf_core()
        &&& self.input_ok()
    }

    /// Clause `c` has a watch in the list of literal `l`.
    spec fn watched_in(self, c: int, l: Lit) -> bool {
        exists|w: int| 0 <= w < self.watches@[l.code() as int]@.len()
            && (#[trigger] self.watches@[l.code() as int]@[w]).cref == c
    }

    /// Clause `c` has a true literal assigned no later (by level) than the
    /// variable of `l`.
    spec fn covered(self, c: int, l: Lit) -> bool {
        exists|k: int| 0 <= k < self.cl(c).len() && self.is_true(#[trigger] self.cl(c)[k])
            && self.lv(self.cl(c)[k].spec_var() as int) <= self.lv(l.spec_var() as int)
    }

    /// `l` is false, and its assignment has been propagated.
    spec fn settled(self, l: Lit) -> bool {
        self.is_false(l) && self.pos@[l.spec_var() as int] < self.qhead
    }

    /// The two-watched-literal invariant: every clause of two or more
    /// literals is watched by its first two, a watched literal whose falsity
    /// has been propagated is made up for by a true literal of the clause,
    /// each blocker is a literal of its clause, and a one-literal clause is
    /// true at level 0.
    spec fn watch_inv(self) -> bool {
        &&& forall|i: int, w: int| 0 <= i < 2 * self.n_vars && 0 <= w < self.watches@[i]@.len()
            ==> self.cl((#[trigger] self.watches@[i]@[w]).cref as int).contains(self.watches@[i]@[w].blocker)
        &&& forall|c: int| 0 <= c < self.clauses@.len() && #[trigger] self.cl(c).len() >= 2
            ==> self.watched_in(c, self.cl(c)[0]) && self.watched_in(c, self.cl(c)[1]) && self.cl(c)[0] != self.cl(c)[1]
        &&& forall|c: int, x: int| 0 <= c < self.clauses@.len() && 0 <= x < 2 && x < self.cl(c).len()
            && self.settled(#[trigger] self.cl(c)[x]) ==> self.covered(c, self.cl(c)[x])
        &&& forall|c: int| 0 <= c < self.clauses@.len() && #[trigger] self.cl(c).len() == 1
            ==> self.is_true(self.cl(c)[0]) && self.lv(self.cl(c)[0].spec_var() as int) == 0
        &&& forall|c: int| 0 <= c < self.clauses@.len() ==> lits_distinct(#[trigger] self.cl(c))
    }

    /// The solver's internal invariant.
    pub closed spec fn wf(self) -> bool {
        &&& self.wf_base()
        &&& self.watch_inv()
    }

    /// The value of the literal under the current assignment.
    fn lit_value(&self, l: Lit) -> (r: Option<bool>)
        requires
            self.inv_shape(),
            l.spec_var() < self.n_vars,
        ensures
            r == Some(true) <==> self.is_true(l),
            r == Some(false) <==> self.is_false(l),
            r is None <==> !self.assigned(l.spec_var() as int),
    {
        let v = l.var() as usize;
        let a = self.assigns[v];
        if a == 0 {
            None
        } else if a == 1 {
            Some(l.is_pos())
        } else {
            Some(l.is_neg())
        }
    }

    /// The current decision level.
    fn decision_level(&self) -> (r: i32)
        requires
            self.inv_shape(),
            self.inv_trail(),
        ensures
            r == self.cur(),
    {
        self.trail_lim.len() as i32
    }

    /// A false literal whose variable was fixed at level 0 is false in every
    /// model of the formula.
    proof fn lemma_false_at_level0(self, x: Lit, a: Seq<bool>)
        requires
            self.wf_core(),
            x.spec_var() < self.n_vars,
            self.is_false(x),
            self.lv(x.spec_var() as int) == 0,
            models(self.formula@, self.n_vars as nat, a),
        ensures
            !lit_true(x, a),
    {
        let v = x.spec_var() as int;
        let j = self.pos@[v];
        assert(self.assigned(v));
        assert(self.tv(j) == v);
        let t = self.trail@[j];
        assert(implied_lit(self.formula@, self.n_vars as nat, t));
        assert(lit_true(t, a));
        assert(self.is_true(t));
    }

    /// Assign `l` true with reason `r`, unless its variable is already
    /// assigned; the result tells whether `l` is true afterwards.
    #[verifier::spinoff_prover]
    #[verifier::rlimit(40)]
    fn enqueue(&mut self, l: Lit, r: Option<usize>) -> (ok: bool)
        requires
            old(self).wf_core(),
            l.spec_var() < old(self).n_vars,
            r matches Some(c) ==> {
                &&& c < old(self).clauses@.len()
                &&& old(self).cl(c as int)[0] == l
                &&& forall|k: int| 1 <= k < old(self).cl(c as int).len() ==> old(self).is_false(#[trigger] old(self).cl(c as int)[k])
            },
            r is None ==> old(self).cur() == 0 && implied_lit(old(self).formula@, old(self).n_vars as nat, l),
        ensures
            final(self).wf_core(),
            old(self).assigned(l.spec_var() as int) ==> *final(self) == *old(self) && ok == old(self).is_true(l),
            !old(self).assigned(l.spec_var() as int) ==> {
                &&& ok
                &&& final(self).trail@ == old(self).trail@.push(l)
                &&& final(self).reason@[l.spec_var() as int] == r
            },
            final(self).n_vars == old(self).n_vars,
            final(self).formula@ == old(self).formula@,
            final(self).input == old(self).input,
            final(self).clauses@ == old(self).clauses@,
            final(self).watches@ == old(self).watches@,
            final(self).trail_lim@ == old(self).trail_lim@,
            final(self).qhead == old(self).qhead,
            final(self).unsat == old(self).unsat,
            final(self).conflict_count == old(self).conflict_count,
            final(self).restart_limit == old(self).restart_limit,
            final(self).polarity@ == old(self).polarity@,
            old(self).trail@.is_prefix_of(final(self).trail@),
            final(self).extends(*old(self)),
            forall|v: int| 0 <= v < old(self).n_vars && old(self).assigned(v) ==> {
                &&& #[trigger] final(self).assigns@[v] == old(self).assigns@[v]
                &&& final(self).level@[v] == old(self).level@[v]
                &&& final(self).reason@[v] == old(self).reason@[v]
            },
    {
        let v = l.var() as usize;
        if self.assigns[v] != 0 {
            let val = self.lit_value(l);
            return val == Some(true);
        }
        let ghost old_self = *self;
        let ghost f = self.formula@;
        let ghost n = self.n_vars as nat;
        let lvl = self.decision_level();
        let sign: i8 = if l.is_neg() { -1 } else { 1 };
        self.assigns.set(v, sign);
        self.level.set(v, lvl);
        self.reason.set(v, r);
        let ghost j = self.trail@.len() as int;
        self.trail.push(l);
        proof {
            self.pos@ = self.pos@.update(v as int, j);
            assert(old_self.trail@.is_prefix_of(self.trail@));
            assert forall|u: int| 0 <= u < self.n_vars implies #[trigger] self.reason_ok(u) by {
                assert(old_self.reason_ok(u));
                if u != v {
                    match self.reason@[u] {
                        Some(c) => {
                            assert forall|k: int| 1 <= k < self.cl(c as int).len() implies {
                                &&& self.is_false(#[trigger] self.cl(c as int)[k])
                                &&& self.pos@[self.cl(c as int)[k].spec_var() as int] < self.pos@[u]
                            } by {
                                assert(old_self.is_false(old_self.cl(c as int)[k]));
                            }
                        },
                        None => {},
                    }
                } else {
                    match r {
                        Some(c) => {
                            assert forall|k: int| 1 <= k < self.cl(c as int).len() implies {
                                &&& self.is_false(#[trigger] self.cl(c as int)[k])
                                &&& self.pos@[self.cl(c as int)[k].spec_var() as int] < self.pos@[u]
                            } by {
                                let x = old_self.cl(c as int)[k];
                                assert(old_self.is_false(x));
                                assert(x.spec_var() != v);
                                assert(old_self.assigned(x.spec_var() as int));
                            }
                        },
                        None => {},
                    }
                }
            }
            assert forall|jj: int| 0 <= jj < self.trail@.len() && self.lv(self.tv(jj)) == 0
                implies implied_lit(f, n, #[trigger] self.trail@[jj]) by {
                if jj < j {
                    assert(old_self.tv(jj) != v as int);
                    assert(old_self.lv(old_self.tv(jj)) == 0);
                } else {
                    assert(lvl == 0);
                    if let Some(c) = r {
                        assert forall|a: Seq<bool>| #[trigger] models(f, n, a) implies lit_true(l, a) by {
                            let cc = old_self.cl(c as int);
                            assert(implied(f, n, cc));
                            assert(clause_sat(cc, a));
                            let k = choose|k: int| 0 <= k < cc.len() && lit_true(#[trigger] cc[k], a);
                            if k >= 1 {
                                let x = cc[k];
                                assert(old_self.is_false(x));
                                let xv = x.spec_var() as int;
                                assert(old_self.assigned(xv));
                                let jx = old_self.pos@[xv];
                                assert(old_self.tv(jx) == xv);
                                assert(old_self.lv(xv) <= old_self.cur());
                                old_self.lemma_false_at_level0(x, a);
                            }
                        }
                    }
                }
            }
            assert forall|u: int| 0 <= u < self.n_vars && #[trigger] self.assigns@[u] == 0
                implies (self.level@[u] == 0 && self.reason@[u] is None) by {
                assert(u != v);
                assert(old_self.assigns@[u] == 0);
                assert(old_self.level@[u] == 0);
                assert(old_self.reason@[u] is None);
                assert(self.reason@[u] == old_self.reason@[u]);
                assert(self.level@[u] == old_self.level@[u]);
            }
            assert(self.unassigned_clean());
            assert(self.inv_shape());
            assert forall|jj: int| #![trigger self.trail@[jj]] 0 <= jj < self.trail@.len() implies {
                &&& 0 <= self.tv(jj) < self.n_vars
                &&& self.is_true(self.trail@[jj])
                &&& self.pos@[self.tv(jj)] == jj
                &&& 0 <= self.lv(self.tv(jj)) <= self.cur()
                &&& self.lstart(self.lv(self.tv(jj))) <= jj < self.lend(self.lv(self.tv(jj)))
            } by {
                if jj < j {
                    assert(old_self.tv(jj) != v as int);
                    assert(self.tv(jj) == old_self.tv(jj));
                    assert(self.lstart(self.lv(self.tv(jj))) == old_self.lstart(old_self.lv(old_self.tv(jj))));
                } else {
                    assert(self.tv(jj) == v as int);
                    if lvl > 0 {
                        assert(self.trail_lim@[lvl - 1] <= old_self.qhead);
                    }
                }
            }
            assert forall|u: int| 0 <= u < self.n_vars && self.assigned(u)
                implies 0 <= #[trigger] self.pos@[u] < self.trail@.len() && self.tv(self.pos@[u]) == u by {
                if u != v {
                    assert(old_self.assigned(u));
                }
            }
            assert forall|jj: int| 0 <= jj < old_self.trail@.len() implies {
                &&& 0 <= (#[trigger] old_self.trail@[jj]).spec_var() < old_self.n_vars
                &&& old_self.trail@[jj].spec_var() != v
                &&& old_self.pos@[old_self.trail@[jj].spec_var() as int] == jj
            } by {
                assert(old_self.tv(jj) != v as int);
            }
            lemma_distinct_vars_len(old_self.trail@, old_self.pos@, old_self.n_vars as int, v as int);
            assert(self.inv_trail());
            assert(self.inv_reason());
            assert(self.inv_logic());
        }
        true
    }

    /// Undo every assignment above decision level `level`.
    #[verifier::spinoff_prover]
    #[verifier::rlimit(100)]
    fn cancel_until(&mut self, level: i32)
        requires
            old(self).wf(),
            level >= 0,
        ensures
            final(self).wf(),
            old(self).cur() <= level ==> *final(self) == *old(self),
            old(self).cur() > level ==> {
                &&& final(self).trail@ == old(self).trail@.subrange(0, old(self).trail_lim@[level as int] as int)
                &&& final(self).trail_lim@ == old(self).trail_lim@.subrange(0, level as int)
                &&& final(self).qhead == final(self).trail@.len()
            },
            final(self).n_vars == old(self).n_vars,
            final(self).formula@ == old(self).formula@,
            final(self).clauses@ == old(self).clauses@,
            final(self).watches@ == old(self).watches@,
            final(self).unsat == old(self).unsat,
            final(self).conflict_count == old(self).conflict_count,
            final(self).restart_limit == old(self).restart_limit,
            final(self).polarity@ == old(self).polarity@,
            final(self).trail@.is_prefix_of(old(self).trail@),
            final(self).pos@ == old(self).pos@,
            final(self).input == old(self).input,
            forall|v: int| 0 <= v < old(self).n_vars && final(self).assigned(v) ==> {
                &&& #[trigger] final(self).assigns@[v] == old(self).assigns@[v]
                &&& final(self).level@[v] == old(self).level@[v]
                &&& final(self).reason@[v] == old(self).reason@[v]
            },
            forall|v: int| #![trigger final(self).assigns@[v]] 0 <= v < old(self).n_vars && old(self).assigned(v) && old(self).lv(v) <= level
                ==> final(self).assigned(v),
    {
        if self.trail_lim.len() as i32 <= level {
            return;
        }
        let ghost old_self = *self;
        let target = self.trail_lim[level as usize];
        while self.trail.len() > target
            invariant
                old_self.wf_core(),
                old_self.inv_trail(),
                0 <= level < old_self.cur(),
                target == old_self.trail_lim@[level as int],
                target <= self.trail@.len() <= old_self.trail@.len(),
                self.trail@ == old_self.trail@.subrange(0, self.trail@.len() as int),
                self.n_vars == old_self.n_vars,
                self.formula == old_self.formula,
                self.input == old_self.input,
                self.clauses == old_self.clauses,
                self.watches == old_self.watches,
                self.trail_lim == old_self.trail_lim,
                self.qhead == old_self.qhead,
                self.unsat == old_self.unsat,
                self.conflict_count == old_self.conflict_count,
                self.restart_limit == old_self.restart_limit,
                self.polarity == old_self.polarity,
                self.pos == old_self.pos,
                self.assigns@.len() == old_self.assigns@.len(),
                self.level@.len() == old_self.level@.len(),
                self.reason@.len() == old_self.reason@.len(),
                forall|u: int| 0 <= u < old_self.n_vars && old_self.assigned(u) && old_self.pos@[u] < self.trail@.len() ==> {
                    &&& #[trigger] self.assigns@[u] == old_self.assigns@[u]
                    &&& self.level@[u] == old_self.level@[u]
                    &&& self.reason@[u] == old_self.reason@[u]
                },
                forall|u: int| 0 <= u < old_self.n_vars && !(old_self.assigned(u) && old_self.pos@[u] < self.trail@.len()) ==> {
                    &&& #[trigger] self.assigns@[u] == 0
                    &&& self.level@[u] == 0
                    &&& self.reason@[u] is None
                },
            decreases self.trail@.len(),
        {
            let ghost before = self.trail@;
            let ghost prev_assigns = self.assigns@;
            let ghost prev_level = self.level@;
            let ghost prev_reason = self.reason@;
            let l = self.trail.pop().unwrap();
            let v = l.var() as usize;
            proof {
                let j = before.len() - 1;
                assert(before[j] == old_self.trail@[j]);
                assert(old_self.tv(j) == v as int);
            }
            self.assigns.set(v, 0);
            self.reason.set(v, None);
            self.level.set(v, 0);
            proof {
                let j = before.len() - 1;
                assert forall|u: int| 0 <= u < old_self.n_vars && old_self.assigned(u) && old_self.pos@[u] < self.trail@.len() implies {
                    &&& #[trigger] self.assigns@[u] == old_self.assigns@[u]
                    &&& self.level@[u] == old_self.level@[u]
                    &&& self.reason@[u] == old_self.reason@[u]
                } by {
                    assert(u != v as int);
                    assert(old_self.pos@[u] < before.len());
                    assert(prev_assigns[u] == old_self.assigns@[u]);
                    assert(prev_level[u] == old_self.level@[u]);
                    assert(prev_reason[u] == old_self.reason@[u]);
                    assert(self.assigns@[u] == prev_assigns[u]);
                    assert(self.level@[u] == prev_level[u]);
                    assert(self.reason@[u] == prev_reason[u]);
                }
                assert forall|u: int| 0 <= u < old_self.n_vars && !(old_self.assigned(u) && old_self.pos@[u] < self.trail@.len()) implies {
                    &&& #[trigger] self.assigns@[u] == 0
                    &&& self.level@[u] == 0
                    &&& self.reason@[u] is None
                } by {
                    if u != v as int {
                        if old_self.assigned(u) && old_self.pos@[u] == j {
                            assert(old_self.tv(old_self.pos@[u]) == u);
                            assert(old_self.tv(j) == v as int);
                            assert(false);
                        }
                        assert(!(old_self.assigned(u) && old_self.pos@[u] < before.len()));
                        assert(prev_assigns[u] == 0);
                        assert(prev_level[u] == 0);
                        assert(prev_reason[u] is None);
                        assert(self.assigns@[u] == prev_assigns[u]);
                        assert(self.level@[u] == prev_level[u]);
                        assert(self.reason@[u] == prev_reason[u]);
                    }
                }
            }
        }
        self.trail_lim.truncate(level as usize);
        self.qhead = self.trail.len();
        proof {
            let t = target as int;
            assert(self.trail@.len() == t);
            assert forall|j: int| #![trigger self.trail@[j]] 0 <= j < self.trail@.len() implies {
                &&& 0 <= self.tv(j) < self.n_vars
                &&& self.is_true(self.trail@[j])
                &&& self.pos@[self.tv(j)] == j
                &&& 0 <= self.lv(self.tv(j)) <= self.cur()
                &&& self.lstart(self.lv(self.tv(j))) <= j < self.lend(self.lv(self.tv(j)))
            } by {
                assert(self.trail@[j] == old_self.trail@[j]);
                let u = old_self.tv(j);
                assert(self.tv(j) == u);
                assert(old_self.is_true(old_self.trail@[j]));
                assert(old_self.assigned(u));
                assert(old_self.pos@[u] == j);
                assert(self.assigns@[u] == old_self.assigns@[u]);
                assert(self.level@[u] == old_self.level@[u]);
                let lu = old_self.lv(u);
                assert(old_self.lstart(lu) <= j < old_self.lend(lu));
                if lu > level {
                    assert(old_self.trail_lim@[lu - 1] >= old_self.trail_lim@[level as int]);
                    assert(false);
                }
                assert(lu <= level);
                if lu > 0 {
                    assert(self.trail_lim@[lu - 1] == old_self.trail_lim@[lu - 1]);
                }
                if lu < level {
                    assert(self.trail_lim@[lu] == old_self.trail_lim@[lu]);
                }
                assert(self.lstart(lu) <= j < self.lend(lu));
            }
            assert forall|u: int| 0 <= u < self.n_vars && self.assigned(u)
                implies 0 <= #[trigger] self.pos@[u] < self.trail@.len() && self.tv(self.pos@[u]) == u by {
                assert(old_self.assigned(u));
            }
            assert forall|k: int| 0 <= k < self.trail_lim@.len() implies k <= #[trigger] self.trail_lim@[k] < self.trail@.len() by {
                assert(old_self.trail_lim@[k] < old_self.trail_lim@[level as int]);
            }
            assert(old_self.trail_lim@[level as int] >= level);
            if level > 0 {
                assert(old_self.trail_lim@[level - 1] < old_self.trail_lim@[level as int]);
            }
            assert(self.inv_trail());
            assert forall|u: int| 0 <= u < self.n_vars implies #[trigger] self.reason_ok(u) by {
                assert(old_self.reason_ok(u));
                if self.assigned(u) {
                    match self.reason@[u] {
                        Some(c) => {
                            assert forall|k: int| 1 <= k < self.cl(c as int).len() implies {
                                &&& self.is_false(#[trigger] self.cl(c as int)[k])
                                &&& self.pos@[self.cl(c as int)[k].spec_var() as int] < self.pos@[u]
                            } by {
                                let x = old_self.cl(c as int)[k];
                                assert(old_self.is_false(x));
                                assert(old_self.assigned(x.spec_var() as int));
                            }
                        },
                        None => {},
                    }
                }
            }
            assert forall|j: int| 0 <= j < old_self.trail@.len() && old_self.lv(old_self.tv(j)) == 0
                implies j < t by {
                assert(old_self.trail_lim@[0] <= old_self.trail_lim@[level as int]);
            }
            assert forall|j: int| 0 <= j < self.trail@.len() && self.lv(self.tv(j)) == 0
                implies implied_lit(self.formula@, self.n_vars as nat, #[trigger] self.trail@[j]) by {
                assert(old_self.trail@[j] == self.trail@[j]);
            }
            assert(old_self.trail@.subrange(0, t).is_prefix_of(old_self.trail@));
            assert forall|u: int| 0 <= u < self.n_vars && #[trigger] self.assigns@[u] == 0
                implies (self.level@[u] == 0 && self.reason@[u] is None) by {
                if old_self.assigned(u) && old_self.pos@[u] < t {
                    assert(self.assigns@[u] == old_self.assigns@[u]);
                }
            }
            assert(self.unassigned_clean());
            assert(self.inv_shape());
            assert(self.inv_reason());
            assert(self.inv_implied());
            assert(self.inv_answer());
        }
        proof {
            if old_self.cur() > 0 {
                assert(old_self.trail_lim@[level as int] <= old_self.trail_lim@[old_self.cur() - 1]);
            }
            assert forall|v: int| #![trigger self.assigns@[v]] 0 <= v < old_self.n_vars && old_self.assigned(v) && old_self.lv(v) <= level
                implies self.assigned(v) by {
                let j = old_self.pos@[v];
                assert(old_self.tv(j) == v);
                if j >= target {
                    let lu = old_self.lv(v);
                    assert(old_self.lstart(lu) <= j < old_self.lend(lu));
                    if lu < level {
                        assert(old_self.trail_lim@[lu] <= old_self.trail_lim@[level as int]);
                    }
                    assert(false);
                }
            }
            Self::lemma_cancel_keeps_watch(old_self, *self, level as int);
        }
    }

    /// Backtracking keeps the watch invariant: a true literal that makes up
    /// for a kept false one is at its level or below, so it is kept too.
    proof fn lemma_cancel_keeps_watch(a: Solver, b: Solver, level: int)
        requires
            a.wf(),
            b.wf_base(),
            0 <= level,
            b.cur() == level,
            b.clauses@ == a.clauses@,
            b.watches@ == a.watches@,
            b.n_vars == a.n_vars,
            b.pos@ == a.pos@,
            b.qhead == b.trail@.len(),
            b.qhead <= a.qhead,
            forall|v: int| 0 <= v < a.n_vars && b.assigned(v) ==> {
                &&& #[trigger] b.assigns@[v] == a.assigns@[v]
                &&& b.level@[v] == a.level@[v]
            },
            forall|v: int| #![trigger b.assigns@[v]] 0 <= v < a.n_vars && a.assigned(v) && a.lv(v) <= level ==> b.assigned(v),
        ensures
            b.watch_inv(),
    {
        assert forall|c: int, x: int| 0 <= c < b.clauses@.len() && 0 <= x < 2 && x < b.cl(c).len()
            && b.settled(#[trigger] b.cl(c)[x]) implies b.covered(c, b.cl(c)[x]) by {
            let l = b.cl(c)[x];
            let vl = l.spec_var() as int;
            assert(a.cl(c) == b.cl(c));
            assert(b.assigned(vl));
            assert(b.assigns@[vl] == a.assigns@[vl]);
            assert(a.settled(l));
            assert(a.covered(c, l));
            let k = choose|k: int| 0 <= k < a.cl(c).len() && a.is_true(#[trigger] a.cl(c)[k])
                && a.lv(a.cl(c)[k].spec_var() as int) <= a.lv(l.spec_var() as int);
            let vk = a.cl(c)[k].spec_var() as int;
            let j = b.pos@[vl];
            assert(b.tv(j) == vl);
            assert(b.lv(vl) <= b.cur());
            assert(a.lv(vl) == b.lv(vl));
            assert(a.assigned(vk));
            assert(b.assigned(vk));
            assert(b.assigns@[vk] == a.assigns@[vk]);
            assert(b.is_true(b.cl(c)[k]));
        }
        assert forall|c: int| 0 <= c < b.clauses@.len() && #[trigger] b.cl(c).len() == 1
            implies b.is_true(b.cl(c)[0]) && b.lv(b.cl(c)[0].spec_var() as int) == 0 by {
            assert(a.cl(c) == b.cl(c));
            assert(a.cl(c).len() == 1);
            let v = b.cl(c)[0].spec_var() as int;
            assert(a.assigned(v));
            assert(b.assigned(v));
            assert(b.assigns@[v] == a.assigns@[v]);
        }
        assert forall|c: int| 0 <= c < b.clauses@.len() && #[trigger] b.cl(c).len() >= 2
            implies b.watched_in(c, b.cl(c)[0]) && b.watched_in(c, b.cl(c)[1]) by {
            assert(a.cl(c) == b.cl(c));
            assert(a.watched_in(c, a.cl(c)[0]) && a.watched_in(c, a.cl(c)[1]));
        }
    }

    /// Whether `v` holds the literal `l`.
    fn contains_lit(v: &Vec<Lit>, l: Lit) -> (r: bool)
        ensures
            r == v@.contains(l),
    {
        let mut i: usize = 0;
        while i < v.len()
            invariant
                0 <= i <= v@.len(),
                forall|j: int| 0 <= j < i ==> v@[j] != l,
            decreases v@.len() - i,
        {
            if v[i] == l {
                return true;
            }
            i += 1;
        }
        false
    }

    /// Add a clause of the formula at level 0: drop it if it holds a literal
    /// and its negation, drop repeated literals, assign a unit clause's
    /// literal, and store and watch a longer one.  `false` means the formula
    /// has no model (the clause is empty, or a unit whose literal is false).
    #[verifier::spinoff_prover]
    #[verifier::rlimit(60)]
    fn add_clause(&mut self, lits: &[Lit]) -> (ok: bool)
        requires
            old(self).wf_core(),
            old(self).watch_inv(),
            old(self).qhead == 0,
            old(self).cur() == 0,
            forall|k: int| 0 <= k < lits@.len() ==> (#[trigger] lits@[k]).spec_var() < old(self).n_vars,
            implied(old(self).formula@, old(self).n_vars as nat, lits@),
        ensures
            final(self).wf_core(),
            final(self).watch_inv(),
            !ok ==> !satisfiable(final(self).formula@, final(self).n_vars as nat),
            final(self).formula@ == old(self).formula@,
            final(self).input == old(self).input,
            final(self).n_vars == old(self).n_vars,
            final(self).unsat == old(self).unsat,
            final(self).trail_lim@ == old(self).trail_lim@,
            final(self).qhead == old(self).qhead,
            final(self).conflict_count == old(self).conflict_count,
            final(self).restart_limit == old(self).restart_limit,
            final(self).polarity@ == old(self).polarity@,
            has_complement(lits@) ==> ok && *final(self) == *old(self),
            !has_complement(lits@) && lits@.len() == 0 ==> !ok && *final(self) == *old(self),
            !has_complement(lits@) && first_occurrences(lits@).len() == 1 ==> {
                &&& first_occurrences(lits@)[0] == lits@[0]
                &&& ok == !old(self).is_false(lits@[0])
                &&& ok ==> final(self).is_true(lits@[0])
                &&& final(self).clauses@ == old(self).clauses@
                &&& old(self).assigned(lits@[0].spec_var() as int) ==> *final(self) == *old(self)
                &&& !old(self).assigned(lits@[0].spec_var() as int) ==> final(self).trail@ == old(self).trail@.push(lits@[0])
            },
            !has_complement(lits@) && first_occurrences(lits@).len() >= 2 ==> {
                &&& ok
                &&& final(self).clauses@.len() == old(self).clauses@.len() + 1
                &&& forall|c: int| 0 <= c < old(self).clauses@.len() ==> #[trigger] final(self).clauses@[c] == old(self).clauses@[c]
                &&& final(self).cl(old(self).clauses@.len() as int) == first_occurrences(lits@)
                &&& !final(self).clauses@[old(self).clauses@.len() as int].learnt
                &&& final(self).assigns@ == old(self).assigns@
                &&& final(self).trail@ == old(self).trail@
            },
    {
        let ghost f = self.formula@;
        let ghost n = self.n_vars as nat;
        let ghost s0 = *self;
        let mut clause: Vec<Lit> = Vec::new();
        proof {
            assert(lits@.subrange(0, 0) =~= Seq::<Lit>::empty());
        }
        let mut i: usize = 0;
        while i < lits.len()
            invariant
                0 <= i <= lits@.len(),
                *self == s0,
                s0.wf_core(),
                s0.watch_inv(),
                f == s0.formula@,
                n == s0.n_vars,
                forall|k: int| 0 <= k < clause@.len() ==> exists|j: int| 0 <= j < i && lits@[j] == #[trigger] clause@[k],
                forall|k: int| 0 <= k < i ==> clause@.contains(#[trigger] lits@[k]),
                clause@ == first_occurrences(lits@.subrange(0, i as int)),
                !has_complement(lits@.subrange(0, i as int)),
                forall|a: int, b: int| 0 <= a < b < clause@.len() ==> clause@[a] != clause@[b],
            decreases lits@.len() - i,
        {
            let l = lits[i];
            let nl = l.neg();
            if Self::contains_lit(&clause, nl) {
                proof {
                    let k = choose|k: int| 0 <= k < clause@.len() && clause@[k] == nl;
                    let j = choose|j: int| 0 <= j < i && lits@[j] == #[trigger] clause@[k];
                    assert(lits@[j] == lits@[i as int].spec_neg());
                    assert(has_complement(lits@));
                }
                return true;
            }
            let ghost cb = clause@;
            let ghost pre = lits@.subrange(0, i as int);
            let ghost pre1 = lits@.subrange(0, i as int + 1);
            proof {
                assert(pre1.drop_last() =~= pre);
                assert(pre1.last() == l);
                assert forall|a: int, b: int| 0 <= a < b < pre1.len() implies !(#[trigger] pre1[a] == (#[trigger] pre1[b]).spec_neg()) by {
                    if b < i {
                        assert(pre1[a] == pre[a] && pre1[b] == pre[b]);
                    } else {
                        assert(cb.contains(lits@[a]));
                    }
                }
            }
            if !Self::contains_lit(&clause, l) {
                clause.push(l);
            }
            proof {
                assert(clause@ == first_occurrences(pre1));
                assert forall|k: int| 0 <= k < clause@.len() implies exists|j: int| 0 <= j < i + 1 && lits@[j] == #[trigger] clause@[k] by {
                    if k < cb.len() {
                        assert(clause@[k] == cb[k]);
                        let j = choose|j: int| 0 <= j < i && lits@[j] == cb[k];
                    } else {
                        assert(lits@[i as int] == clause@[k]);
                    }
                }
                assert forall|k: int| 0 <= k < i + 1 implies clause@.contains(#[trigger] lits@[k]) by {
                    if k < i {
                        assert(cb.contains(lits@[k]));
                        let m = choose|m: int| 0 <= m < cb.len() && cb[m] == lits@[k];
                        assert(clause@[m] == lits@[k]);
                    } else if !cb.contains(l) {
                        assert(clause@[cb.len() as int] == l);
                    }
                }
            }
            i += 1;
        }
        proof {
            assert(lits@.subrange(0, lits@.len() as int) =~= lits@);
        }
        if clause.len() == 0 {
            proof {
                assert(lits@.len() == 0) by {
                    if lits@.len() > 0 {
                        assert(clause@.contains(lits@[0]));
                    }
                }
                assert forall|a: Seq<bool>| !models(f, n, a) by {
                    if models(f, n, a) {
                        assert(clause_sat(lits@, a));
                    }
                }
            }
            return false;
        }
        if clause.len() == 1 {
            let l0 = clause[0];
            proof {
                assert forall|a: Seq<bool>| #[trigger] models(f, n, a) implies lit_true(l0, a) by {
                    assert(clause_sat(lits@, a));
                    let k = choose|k: int| 0 <= k < lits@.len() && lit_true(#[trigger] lits@[k], a);
                    assert(clause@.contains(lits@[k]));
                }
                let j = choose|j: int| 0 <= j < lits@.len() && lits@[j] == clause@[0];
            }
            proof {
                assert(clause@.contains(lits@[0]));
                assert(l0 == lits@[0]);
            }
            let ghost before = *self;
            let ok = self.enqueue(l0, None);
            proof {
                if !before.assigned(l0.spec_var() as int) {
                    assert(self.trail@[self.trail@.len() - 1] == l0);
                }
                assert forall|c: int| 0 <= c < before.clauses@.len() implies #[trigger] self.cl(c) == before.cl(c) by {}
                Self::lemma_watch_inv_grow(before, *self);
                if !ok {
                    assert forall|a: Seq<bool>| !models(f, n, a) by {
                        if models(f, n, a) {
                            assert(before.is_false(l0)) by {
                                assert(before.assigned(l0.spec_var() as int));
                            }
                            assert(before.lv(l0.spec_var() as int) == 0) by {
                                let v = l0.spec_var() as int;
                                let jj = before.pos@[v];
                                assert(before.tv(jj) == v);
                            }
                            before.lemma_false_at_level0(l0, a);
                        }
                    }
                }
            }
            return ok;
        }
        let idx = self.clauses.len();
        let c0 = clause[0];
        let c1 = clause[1];
        let ghost before = *self;
        let ghost cs = clause@;
        proof {
            let j0 = choose|j: int| 0 <= j < lits@.len() && lits@[j] == cs[0];
            let j1 = choose|j: int| 0 <= j < lits@.len() && lits@[j] == cs[1];
            lemma_lit_code(c0);
            lemma_lit_code(c1);
            assert forall|a: Seq<bool>| #[trigger] models(f, n, a) implies clause_sat(cs, a) by {
                assert(clause_sat(lits@, a));
                let k = choose|k: int| 0 <= k < lits@.len() && lit_true(#[trigger] lits@[k], a);
                assert(cs.contains(lits@[k]));
                let m = choose|m: int| 0 <= m < cs.len() && cs[m] == lits@[k];
            }
        }
        self.clauses.push(Clause { lits: clause, learnt: false });
        let w0 = Watcher { cref: idx, blocker: c1 };
        let w1 = Watcher { cref: idx, blocker: c0 };
        self.watches[c0.index()].push(w0);
        self.watches[c1.index()].push(w1);
        proof {
            assert(self.cl(idx as int) == cs);
            assert forall|c: int| 0 <= c < before.clauses@.len() implies #[trigger] self.cl(c) == before.cl(c) by {}
            assert forall|c: int, k: int| 0 <= c < self.clauses@.len() && 0 <= k < self.cl(c).len()
                implies (#[trigger] self.cl(c)[k]).spec_var() < self.n_vars by {
                if c == idx {
                    let j = choose|j: int| 0 <= j < lits@.len() && lits@[j] == cs[k];
                } else {
                    assert(self.cl(c) == before.cl(c));
                }
            }
            let j0 = choose|j: int| 0 <= j < lits@.len() && lits@[j] == cs[0];
            let j1 = choose|j: int| 0 <= j < lits@.len() && lits@[j] == cs[1];
            assert forall|ii: int, w: int| 0 <= ii < 2 * self.n_vars && 0 <= w < self.watches@[ii]@.len()
                implies watch_ok(#[trigger] self.watches@[ii]@[w], self.n_vars as int, self.clauses@.len() as int) by {
                if ii == c0.code() as int || ii == c1.code() as int {
                    if w < before.watches@[ii]@.len() {
                        assert(watch_ok(before.watches@[ii]@[w], before.n_vars as int, before.clauses@.len() as int));
                    }
                } else {
                    assert(self.watches@[ii] == before.watches@[ii]);
                }
            }
            assert(self.inv_shape());
            assert forall|u: int| 0 <= u < self.n_vars implies #[trigger] self.reason_ok(u) by {
                assert(before.reason_ok(u));
                if let Some(c) = self.reason@[u] {
                    assert(self.cl(c as int) == before.cl(c as int));
                }
            }
            assert(self.inv_reason());
            assert forall|c: int| 0 <= c < self.clauses@.len() implies implied(f, n, #[trigger] self.cl(c)) by {
                if c < idx {
                    assert(self.cl(c) == before.cl(c));
                }
            }
            assert(self.inv_implied());
            assert(self.extends(before)) by {
                assert(before.trail@ =~= self.trail@.subrange(0, before.trail@.len() as int));
            }
            assert forall|i: int, w: int| 0 <= i < 2 * before.n_vars && 0 <= w < before.watches@[i]@.len()
                implies w < self.watches@[i]@.len() && #[trigger] self.watches@[i]@[w] == before.watches@[i]@[w] by {
                if i == c0.code() as int || i == c1.code() as int {
                } else {
                    assert(self.watches@[i] == before.watches@[i]);
                }
            }
            assert forall|i: int, w: int| 0 <= i < 2 * before.n_vars && before.watches@[i]@.len() <= w < self.watches@[i]@.len()
                implies self.cl((#[trigger] self.watches@[i]@[w]).cref as int).contains(self.watches@[i]@[w].blocker) by {
                if i == c0.code() as int || i == c1.code() as int {
                    assert(self.watches@[i]@[w].cref == idx);
                    assert(cs[0] == c0);
                    assert(cs[1] == c1);
                } else {
                    assert(self.watches@[i] == before.watches@[i]);
                }
            }
            assert(self.watches@[c0.code() as int]@[before.watches@[c0.code() as int]@.len() as int].cref == idx);
            let wl1 = self.watches@[c1.code() as int]@.len() - 1;
            assert(self.watches@[c1.code() as int]@[wl1].cref == idx);
            assert(self.watched_in(idx as int, self.cl(idx as int)[0]));
            assert(self.watched_in(idx as int, self.cl(idx as int)[1]));
            assert(cs[0] != cs[1]);
            Self::lemma_watch_inv_grow(before, *self);
        }
        true
    }

    /// Exchange two literals of a clause that is no variable's reason.
    #[verifier::spinoff_prover]
    #[verifier::rlimit(100)]
    fn swap_lits(&mut self, cref: usize, i: usize, j: usize)
        requires
            old(self).wf_base(),
            cref < old(self).clauses@.len(),
            i < old(self).cl(cref as int).len(),
            j < old(self).cl(cref as int).len(),
            forall|u: int| 0 <= u < old(self).n_vars ==> #[trigger] old(self).reason@[u] != Some(cref),
        ensures
            final(self).wf_base(),
            final(self).extends(*old(self)),
            final(self).cl(cref as int) == swapped(old(self).cl(cref as int), i as int, j as int),
            swapped_at(old(self).clauses@, final(self).clauses@, cref as int, i as int, j as int),
            final(self).clauses@.len() == old(self).clauses@.len(),
            forall|c: int| 0 <= c < old(self).clauses@.len() && c != cref ==> #[trigger] final(self).cl(c) == old(self).cl(c),
            final(self).n_vars == old(self).n_vars,
            final(self).formula@ == old(self).formula@,
            final(self).input == old(self).input,
            final(self).watches@ == old(self).watches@,
            final(self).assigns@ == old(self).assigns@,
            final(self).level@ == old(self).level@,
            final(self).reason@ == old(self).reason@,
            final(self).trail@ == old(self).trail@,
            final(self).trail_lim@ == old(self).trail_lim@,
            final(self).pos@ == old(self).pos@,
            final(self).qhead == old(self).qhead,
            final(self).unsat == old(self).unsat,
            final(self).conflict_count == old(self).conflict_count,
            final(self).restart_limit == old(self).restart_limit,
            final(self).polarity@ == old(self).polarity@,
    {
        let ghost before = *self;
        let ghost s0 = self.cl(cref as int);
        let a = self.clauses[cref].lits[i];
        let b = self.clauses[cref].lits[j];
        self.clauses[cref].lits.set(i, b);
        self.clauses[cref].lits.set(j, a);
        proof {
            lemma_swapped(s0, i as int, j as int);
            assert(self.cl(cref as int) =~= swapped(s0, i as int, j as int));
            assert forall|c: int| 0 <= c < self.clauses@.len() && c != cref implies #[trigger] self.clauses@[c] == before.clauses@[c] by {}
            lemma_swap_clauses_ok(before.clauses@, self.clauses@, cref as int, i as int, j as int, self.n_vars as int);
            lemma_swap_reasons_ok(before.clauses@, self.clauses@, cref as int, self.reason@, self.assigns@, self.level@, self.trail@, self.pos@, self.trail_lim@, self.n_vars as int);
            lemma_swap_implied_ok(before.clauses@, self.clauses@, cref as int, i as int, j as int, self.formula@, self.n_vars as nat, self.trail@, self.level@);
            assert(before.trail@ =~= self.trail@.subrange(0, before.trail@.len() as int));
        }
    }

    /// Add a watch to the list of the literal with encoding `i`.
    fn push_watch(&mut self, i: usize, w: Watcher)
        requires
            old(self).wf_base(),
            i < 2 * old(self).n_vars,
            watch_ok(w, old(self).n_vars as int, old(self).clauses@.len() as int),
        ensures
            final(self).wf_base(),
            final(self).extends(*old(self)),
            final(self).watches@[i as int]@ == old(self).watches@[i as int]@.push(w),
            forall|ii: int| 0 <= ii < 2 * old(self).n_vars && ii != i ==> #[trigger] final(self).watches@[ii] == old(self).watches@[ii],
            final(self).clauses@ == old(self).clauses@,
            final(self).n_vars == old(self).n_vars,
            final(self).formula@ == old(self).formula@,
            final(self).input == old(self).input,
            final(self).assigns@ == old(self).assigns@,
            final(self).level@ == old(self).level@,
            final(self).reason@ == old(self).reason@,
            final(self).trail@ == old(self).trail@,
            final(self).trail_lim@ == old(self).trail_lim@,
            final(self).pos@ == old(self).pos@,
            final(self).qhead == old(self).qhead,
            final(self).unsat == old(self).unsat,
            final(self).conflict_count == old(self).conflict_count,
            final(self).restart_limit == old(self).restart_limit,
            final(self).polarity@ == old(self).polarity@,
    {
        let ghost before = *self;
        self.watches[i].push(w);
        proof {
            assert forall|ii: int, k: int| 0 <= ii < 2 * self.n_vars && 0 <= k < self.watches@[ii]@.len()
                implies watch_ok(#[trigger] self.watches@[ii]@[k], self.n_vars as int, self.clauses@.len() as int) by {
                if ii != i {
                    assert(self.watches@[ii] == before.watches@[ii]);
                } else if k < before.watches@[ii]@.len() {
                    assert(self.watches@[ii]@[k] == before.watches@[ii]@[k]);
                }
            }
            assert(self.inv_shape());
            assert(before.trail@ =~= self.trail@.subrange(0, before.trail@.len() as int));
        }
    }

    /// `self` continues the search state `o`: the same formula and decision
    /// levels, the same number of stored clauses, and the assignments of `o`
    /// kept with their levels and reasons.
    spec fn extends(self, o: Solver) -> bool {
        &&& self.n_vars == o.n_vars
        &&& self.formula@ == o.formula@
        &&& self.input == o.input
        &&& self.unsat == o.unsat
        &&& self.conflict_count == o.conflict_count
        &&& self.restart_limit == o.restart_limit
        &&& self.polarity@ == o.polarity@
        &&& self.trail_lim@ == o.trail_lim@
        &&& o.trail@.is_prefix_of(self.trail@)
        &&& forall|v: int| 0 <= v < o.n_vars && o.assigns@[v] != 0 ==> {
            &&& #[trigger] self.assigns@[v] == o.assigns@[v]
            &&& self.level@[v] == o.level@[v]
            &&& self.reason@[v] == o.reason@[v]
        }
    }

    /// Continuing a continuation of `a` continues `a`.
    proof fn lemma_extends_trans(a: Solver, b: Solver, c: Solver)
        requires
            b.extends(a),
            c.extends(b),
        ensures
            c.extends(a),
    {
        assert forall|v: int| 0 <= v < a.n_vars && a.assigns@[v] != 0 implies {
            &&& #[trigger] c.assigns@[v] == a.assigns@[v]
            &&& c.level@[v] == a.level@[v]
            &&& c.reason@[v] === a.reason@[v]
        } by {
            assert(b.assigns@[v] == a.assigns@[v]);
            assert(b.level@[v] == a.level@[v]);
            assert(b.reason@[v] === a.reason@[v]);
            assert(c.assigns@[v] == b.assigns@[v]);
            assert(c.level@[v] == b.level@[v]);
            assert(c.reason@[v] === b.reason@[v]);
        }
        assert(a.trail@ =~= c.trail@.subrange(0, a.trail@.len() as int)) by {
            assert(a.trail@ =~= b.trail@.subrange(0, a.trail@.len() as int));
            assert(b.trail@ =~= c.trail@.subrange(0, b.trail@.len() as int));
        }
    }

    /// A false literal of a continuation whose assignment was propagated was
    /// already false, and propagated, in the state continued.
    proof fn lemma_settled_before(a: Solver, b: Solver, l: Lit)
        requires
            a.wf_core(),
            b.wf_core(),
            b.extends(a),
            b.qhead <= a.qhead,
            l.spec_var() < a.n_vars,
            b.settled(l),
        ensures
            a.settled(l),
    {
        let v = l.spec_var() as int;
        let j = b.pos@[v];
        assert(b.tv(j) == v);
        assert(b.trail@[j] == a.trail@[j]);
        assert(a.tv(j) == v);
        assert(a.assigned(v));
        assert(a.pos@[v] == j);
    }

    /// The watch invariant carries over to a continuation that keeps the
    /// propagation point, keeps every stored clause and watch, and whose new
    /// clauses and watches meet it.
    proof fn lemma_watch_inv_grow(a: Solver, b: Solver)
        requires
            a.wf_core(),
            a.watch_inv(),
            b.wf_core(),
            b.extends(a),
            b.qhead == a.qhead,
            a.clauses@.len() <= b.clauses@.len(),
            forall|c: int| 0 <= c < a.clauses@.len() ==> #[trigger] b.cl(c) == a.cl(c),
            forall|i: int, w: int| 0 <= i < 2 * a.n_vars && 0 <= w < a.watches@[i]@.len()
                ==> w < b.watches@[i]@.len() && #[trigger] b.watches@[i]@[w] == a.watches@[i]@[w],
            forall|i: int, w: int| 0 <= i < 2 * a.n_vars && a.watches@[i]@.len() <= w < b.watches@[i]@.len()
                ==> b.cl((#[trigger] b.watches@[i]@[w]).cref as int).contains(b.watches@[i]@[w].blocker),
            forall|c: int| a.clauses@.len() <= c < b.clauses@.len() && #[trigger] b.cl(c).len() >= 2
                ==> b.watched_in(c, b.cl(c)[0]) && b.watched_in(c, b.cl(c)[1]) && b.cl(c)[0] != b.cl(c)[1],
            forall|c: int, x: int| a.clauses@.len() <= c < b.clauses@.len() && 0 <= x < 2 && x < b.cl(c).len()
                && b.settled(#[trigger] b.cl(c)[x]) ==> b.covered(c, b.cl(c)[x]),
            forall|c: int| a.clauses@.len() <= c < b.clauses@.len() && #[trigger] b.cl(c).len() == 1
                ==> b.is_true(b.cl(c)[0]) && b.lv(b.cl(c)[0].spec_var() as int) == 0,
            forall|c: int| a.clauses@.len() <= c < b.clauses@.len() ==> lits_distinct(#[trigger] b.cl(c)),
        ensures
            b.watch_inv(),
    {
        assert forall|i: int, w: int| 0 <= i < 2 * b.n_vars && 0 <= w < b.watches@[i]@.len()
            implies b.cl((#[trigger] b.watches@[i]@[w]).cref as int).contains(b.watches@[i]@[w].blocker) by {
            if w < a.watches@[i]@.len() {
                assert(b.watches@[i]@[w] == a.watches@[i]@[w]);
                assert(a.cl(a.watches@[i]@[w].cref as int).contains(a.watches@[i]@[w].blocker));
                assert(watch_ok(a.watches@[i]@[w], a.n_vars as int, a.clauses@.len() as int));
                assert(b.cl(a.watches@[i]@[w].cref as int) == a.cl(a.watches@[i]@[w].cref as int));
            }
        }
        assert forall|c: int| 0 <= c < b.clauses@.len() && #[trigger] b.cl(c).len() >= 2
            implies b.watched_in(c, b.cl(c)[0]) && b.watched_in(c, b.cl(c)[1]) by {
            if c < a.clauses@.len() {
                assert(b.cl(c) == a.cl(c));
                assert(a.cl(c).len() >= 2);
                assert(a.watched_in(c, a.cl(c)[0]) && a.watched_in(c, a.cl(c)[1]));
                let l0 = a.cl(c)[0];
                let l1 = a.cl(c)[1];
                lemma_lit_code(l0);
                lemma_lit_code(l1);
                let w0 = choose|w: int| 0 <= w < a.watches@[l0.code() as int]@.len() && (#[trigger] a.watches@[l0.code() as int]@[w]).cref == c;
                let w1 = choose|w: int| 0 <= w < a.watches@[l1.code() as int]@.len() && (#[trigger] a.watches@[l1.code() as int]@[w]).cref == c;
                assert(b.watches@[l0.code() as int]@[w0] == a.watches@[l0.code() as int]@[w0]);
                assert(b.watches@[l1.code() as int]@[w1] == a.watches@[l1.code() as int]@[w1]);
            }
        }
        assert forall|c: int, x: int| 0 <= c < b.clauses@.len() && 0 <= x < 2 && x < b.cl(c).len()
            && b.settled(#[trigger] b.cl(c)[x]) implies b.covered(c, b.cl(c)[x]) by {
            if c < a.clauses@.len() {
                let l = b.cl(c)[x];
                assert(b.cl(c) == a.cl(c));
                Self::lemma_settled_before(a, b, l);
                assert(a.covered(c, l));
                let k = choose|k: int| 0 <= k < a.cl(c).len() && a.is_true(#[trigger] a.cl(c)[k])
                    && a.lv(a.cl(c)[k].spec_var() as int) <= a.lv(l.spec_var() as int);
                let vk = a.cl(c)[k].spec_var() as int;
                let vl = l.spec_var() as int;
                assert(a.assigns@[vk] != 0);
                assert(a.assigns@[vl] != 0);
                assert(b.assigns@[vk] == a.assigns@[vk]);
                assert(b.assigns@[vl] == a.assigns@[vl]);
                assert(b.is_true(b.cl(c)[k]));
            }
        }
        assert forall|c: int| 0 <= c < b.clauses@.len() && #[trigger] b.cl(c).len() == 1
            implies b.is_true(b.cl(c)[0]) && b.lv(b.cl(c)[0].spec_var() as int) == 0 by {
            if c < a.clauses@.len() {
                assert(b.cl(c) == a.cl(c));
                assert(a.cl(c).len() == 1);
                let v = a.cl(c)[0].spec_var() as int;
                assert(a.assigns@[v] != 0);
                assert(b.assigns@[v] == a.assigns@[v]);
            }
        }
    }

    /// The watch invariant depends only on the clauses, the watches, the
    /// assignment with its levels and positions, and the propagation points.
    proof fn lemma_watch_inv_same(a: Solver, b: Solver)
        requires
            a.watch_inv(),
            b.clauses@ == a.clauses@,
            b.watches@ == a.watches@,
            b.assigns@ == a.assigns@,
            b.level@ == a.level@,
            b.pos@ == a.pos@,
            b.qhead == a.qhead,
            b.n_vars == a.n_vars,
        ensures
            b.watch_inv(),
    {
        assert forall|c: int| 0 <= c < b.clauses@.len() && #[trigger] b.cl(c).len() >= 2
            implies b.watched_in(c, b.cl(c)[0]) && b.watched_in(c, b.cl(c)[1]) by {
            assert(a.cl(c) == b.cl(c));
            assert(a.watched_in(c, a.cl(c)[0]) && a.watched_in(c, a.cl(c)[1]));
            let l0 = a.cl(c)[0];
            let l1 = a.cl(c)[1];
            let w0 = choose|w: int| 0 <= w < a.watches@[l0.code() as int]@.len() && (#[trigger] a.watches@[l0.code() as int]@[w]).cref == c;
            let w1 = choose|w: int| 0 <= w < a.watches@[l1.code() as int]@.len() && (#[trigger] a.watches@[l1.code() as int]@[w]).cref == c;
            assert(b.watches@[l0.code() as int]@[w0].cref == c);
            assert(b.watches@[l1.code() as int]@[w1].cref == c);
        }
        assert forall|c: int, x: int| 0 <= c < b.clauses@.len() && 0 <= x < 2 && x < b.cl(c).len()
            && b.settled(#[trigger] b.cl(c)[x]) implies b.covered(c, b.cl(c)[x]) by {
            assert(a.cl(c) == b.cl(c));
            let l = a.cl(c)[x];
            assert(a.settled(l));
            assert(a.covered(c, l));
            let k = choose|k: int| 0 <= k < a.cl(c).len() && a.is_true(#[trigger] a.cl(c)[k])
                && a.lv(a.cl(c)[k].spec_var() as int) <= a.lv(l.spec_var() as int);
            assert(b.is_true(b.cl(c)[k]));
        }
        assert forall|i: int, w: int| 0 <= i < 2 * b.n_vars && 0 <= w < b.watches@[i]@.len()
            implies b.cl((#[trigger] b.watches@[i]@[w]).cref as int).contains(b.watches@[i]@[w].blocker) by {
            assert(a.cl(a.watches@[i]@[w].cref as int).contains(a.watches@[i]@[w].blocker));
        }
        assert forall|c: int| 0 <= c < b.clauses@.len() && #[trigger] b.cl(c).len() == 1
            implies b.is_true(b.cl(c)[0]) && b.lv(b.cl(c)[0].spec_var() as int) == 0 by {
            assert(a.cl(c) == b.cl(c));
        }
    }

    /// The marks of a conflict analysis: `seen` marks variables assigned
    /// above level 0, `out` holds the false literal of each marked variable
    /// below the current level, and `bt` bounds their levels.
    spec fn marks_ok(self, seen: Seq<bool>, out: Seq<Lit>, bt: int) -> bool {
        &&& seen.len() == self.n_vars
        &&& 0 <= bt < self.cur()
        &&& out.len() == 0 ==> bt == 0
        &&& forall|v: int| 0 <= v < self.n_vars && #[trigger] seen[v] ==> self.assigned(v) && self.lv(v) > 0
        &&& forall|v: int| 0 <= v < self.n_vars && #[trigger] seen[v] && self.lv(v) < self.cur()
            ==> exists|m: int| 0 <= m < out.len() && (#[trigger] out[m]).spec_var() == v
        &&& forall|m: int| 0 <= m < out.len() ==> {
            &&& (#[trigger] out[m]).spec_var() < self.n_vars
            &&& self.is_false(out[m])
            &&& seen[out[m].spec_var() as int]
            &&& 0 < self.lv(out[m].spec_var() as int) < self.cur()
            &&& self.lv(out[m].spec_var() as int) <= bt
        }
        &&& lits_distinct(out)
    }

    /// Every model of the formula that makes all of `out` false disagrees
    /// with the trail on a marked variable of the current level at a
    /// position `<= q`.
    spec fn witnessed(self, seen: Seq<bool>, out: Seq<Lit>, q: int) -> bool {
        forall|a: Seq<bool>| #[trigger] models(self.formula@, self.n_vars as nat, a)
            && (forall|m: int| 0 <= m < out.len() ==> !lit_true(#[trigger] out[m], a))
            ==> exists|j: int| 0 <= j <= q && seen[self.tv(j)] && self.lv(self.tv(j)) == self.cur() && !lit_true(#[trigger] self.trail@[j], a)
    }

    /// Two false literals of the same variable are the same literal.
    proof fn lemma_false_same(self, x: Lit, y: Lit)
        requires
            self.inv_shape(),
            x.spec_var() == y.spec_var(),
            x.spec_var() < self.n_vars,
            self.is_false(x),
            self.is_false(y),
        ensures
            x == y,
    {
        lemma_lit_eq(x, y);
    }

    /// A model that satisfies a clause of false literals (all but possibly
    /// the first, when `start == 1` and the model falsifies it), each marked
    /// or fixed at level 0 and placed at a position `<= q`, and that makes
    /// all of `out` false, disagrees with the trail on a marked variable of
    /// the current level at a position `<= q`.
    proof fn lemma_clause_witness(self, seen: Seq<bool>, out: Seq<Lit>, bt: int, r: Seq<Lit>, start: int, q: int, a: Seq<bool>)
        requires
            self.wf(),
            self.marks_ok(seen, out, bt),
            start == 0 || start == 1,
            start <= r.len(),
            implied(self.formula@, self.n_vars as nat, r),
            forall|k: int| start <= k < r.len() ==> {
                &&& (#[trigger] r[k]).spec_var() < self.n_vars
                &&& self.is_false(r[k])
                &&& (self.lv(r[k].spec_var() as int) == 0 || seen[r[k].spec_var() as int])
                &&& self.pos@[r[k].spec_var() as int] <= q
            },
            q < self.trail@.len(),
            models(self.formula@, self.n_vars as nat, a),
            forall|m: int| 0 <= m < out.len() ==> !lit_true(#[trigger] out[m], a),
            start == 1 ==> !lit_true(r[0], a),
        ensures
            exists|j: int| 0 <= j <= q && seen[self.tv(j)] && self.lv(self.tv(j)) == self.cur() && !lit_true(#[trigger] self.trail@[j], a),
    {
        assert(clause_sat(r, a));
        let k = choose|k: int| 0 <= k < r.len() && lit_true(#[trigger] r[k], a);
        assert(k >= start);
        let x = r[k];
        let v = x.spec_var() as int;
        assert(self.assigned(v));
        let j = self.pos@[v];
        assert(self.tv(j) == v);
        if self.lv(v) == 0 {
            self.lemma_false_at_level0(x, a);
        } else {
            assert(seen[v]);
            if self.lv(v) < self.cur() {
                let m = choose|m: int| 0 <= m < out.len() && (#[trigger] out[m]).spec_var() == v;
                self.lemma_false_same(out[m], x);
                assert(!lit_true(out[m], a));
            } else {
                let t = self.trail@[j];
                assert(self.is_true(t));
                assert(!lit_true(t, a));
                assert(seen[self.tv(j)] && self.lv(self.tv(j)) == self.cur());
            }
        }
    }

    /// A clause all of whose literals are false, with one of them decided at
    /// the current level when that level is above 0.
    spec fn conflicting(self, c: int) -> bool {
        &&& 0 <= c < self.clauses@.len()
        &&& forall|k: int| 0 <= k < self.cl(c).len() ==> self.is_false(#[trigger] self.cl(c)[k])
        &&& self.cur() > 0 ==> exists|k: int| 0 <= k < self.cl(c).len() && self.lv((#[trigger] self.cl(c)[k]).spec_var() as int) == self.cur()
    }

    /// Whether a clause is conflicting depends only on the clauses, the
    /// assignment, the levels and the decision levels.
    proof fn lemma_conflicting_same(a: Solver, b: Solver, c: int)
        requires
            a.conflicting(c),
            a.clauses@ == b.clauses@,
            a.assigns@ == b.assigns@,
            a.level@ == b.level@,
            a.trail_lim@ == b.trail_lim@,
        ensures
            b.conflicting(c),
    {
        assert forall|k: int| 0 <= k < b.cl(c).len() implies b.is_false(#[trigger] b.cl(c)[k]) by {
            assert(a.is_false(a.cl(c)[k]));
        }
        if b.cur() > 0 {
            let k = choose|k: int| 0 <= k < a.cl(c).len() && a.lv((#[trigger] a.cl(c)[k]).spec_var() as int) == a.cur();
            assert(b.lv(b.cl(c)[k].spec_var() as int) == b.cur());
        }
    }

    /// The watch invariant while the watch list of encoding `q` is being
    /// visited: that list's watches are held in `pend` instead.
    spec fn watch_inv_at(self, q: int, pend: Seq<Watcher>) -> bool {
        &&& forall|i: int, w: int| 0 <= i < 2 * self.n_vars && i != q && 0 <= w < self.watches@[i]@.len()
            ==> self.cl((#[trigger] self.watches@[i]@[w]).cref as int).contains(self.watches@[i]@[w].blocker)
        &&& forall|w: int| 0 <= w < pend.len() ==> (#[trigger] pend[w]).cref < self.clauses@.len()
            && self.cl(pend[w].cref as int).contains(pend[w].blocker)
        &&& forall|c: int, y: int| 0 <= c < self.clauses@.len() && 0 <= y < 2 && 2 <= self.cl(c).len()
            ==> (if (#[trigger] self.cl(c)[y]).code() == q {
                exists|w: int| 0 <= w < pend.len() && (#[trigger] pend[w]).cref == c
            } else {
                self.watched_in(c, self.cl(c)[y])
            })
        &&& forall|c: int| 0 <= c < self.clauses@.len() && #[trigger] self.cl(c).len() >= 2
            ==> self.cl(c)[0] != self.cl(c)[1]
        &&& forall|c: int, x: int| 0 <= c < self.clauses@.len() && 0 <= x < 2 && x < self.cl(c).len()
            && self.settled(#[trigger] self.cl(c)[x]) ==> self.covered(c, self.cl(c)[x])
        &&& forall|c: int| 0 <= c < self.clauses@.len() && #[trigger] self.cl(c).len() == 1
            ==> self.is_true(self.cl(c)[0]) && self.lv(self.cl(c)[0].spec_var() as int) == 0
        &&& forall|c: int| 0 <= c < self.clauses@.len() ==> lits_distinct(#[trigger] self.cl(c))
    }

    /// Clause `c` is false: every literal is false.
    spec fn clause_false(self, c: int) -> bool {
        forall|k: int| 0 <= k < self.cl(c).len() ==> self.is_false(#[trigger] self.cl(c)[k])
    }

    /// Clause `c` is unit: one literal is unassigned and every other is false.
    spec fn clause_unit(self, c: int) -> bool {
        exists|u: int| 0 <= u < self.cl(c).len() && !self.assigned((#[trigger] self.cl(c)[u]).spec_var() as int)
            && forall|k: int| 0 <= k < self.cl(c).len() && k != u ==> self.is_false(#[trigger] self.cl(c)[k])
    }

    proof fn lemma_code_inj(a: Lit, b: Lit)
        requires
            a.code() == b.code(),
        ensures
            a == b,
    {
        lemma_lit_eq(a, b);
    }

    /// Once the whole trail is propagated, the watch invariant leaves no
    /// clause false and none unit.
    proof fn lemma_complete(self)
        requires
            self.wf_core(),
            self.watch_inv(),
            self.qhead == self.trail@.len(),
        ensures
            forall|c: int| 0 <= c < self.clauses@.len() ==> !#[trigger] self.clause_false(c) && !self.clause_unit(c),
    {
        assert forall|c: int| 0 <= c < self.clauses@.len() implies !#[trigger] self.clause_false(c) && !self.clause_unit(c) by {
            let r = self.cl(c);
            assert(r.len() >= 1);
            if r.len() == 1 {
                assert(self.is_true(r[0]));
                if self.clause_unit(c) {
                    let u = choose|u: int| 0 <= u < r.len() && !self.assigned((#[trigger] r[u]).spec_var() as int)
                        && forall|k: int| 0 <= k < r.len() && k != u ==> self.is_false(#[trigger] r[k]);
                    assert(u == 0);
                }
            } else {
                if self.clause_false(c) {
                    let v = r[0].spec_var() as int;
                    assert(self.is_false(r[0]));
                    assert(self.pos@[v] < self.trail@.len());
                    assert(self.settled(r[0]));
                    assert(self.covered(c, r[0]));
                    let k = choose|k: int| 0 <= k < r.len() && self.is_true(#[trigger] r[k])
                        && self.lv(r[k].spec_var() as int) <= self.lv(r[0].spec_var() as int);
                    assert(self.is_false(r[k]));
                }
                if self.clause_unit(c) {
                    let u = choose|u: int| 0 <= u < r.len() && !self.assigned((#[trigger] r[u]).spec_var() as int)
                        && forall|k: int| 0 <= k < r.len() && k != u ==> self.is_false(#[trigger] r[k]);
                    let x: int = if u == 0 { 1 } else { 0 };
                    assert(self.is_false(r[x]));
                    let v = r[x].spec_var() as int;
                    assert(self.pos@[v] < self.trail@.len());
                    assert(self.settled(r[x]));
                    assert(self.covered(c, r[x]));
                    let k = choose|k: int| 0 <= k < r.len() && self.is_true(#[trigger] r[k])
                        && self.lv(r[k].spec_var() as int) <= self.lv(r[x].spec_var() as int);
                    if k != u {
                        assert(self.is_false(r[k]));
                    }
                }
            }
        }
    }

    /// Taking the watch list `q` out for a visit.
    proof fn lemma_visit_enter(a: Solver, b: Solver, q: int)
        requires
            a.wf_core(),
            a.watch_inv(),
            0 <= q < 2 * a.n_vars,
            b.watches@ == a.watches@.update(q, b.watches@[q]),
            b.watches@[q]@.len() == 0,
            b.clauses@ == a.clauses@,
            b.assigns@ == a.assigns@,
            b.level@ == a.level@,
            b.pos@ == a.pos@,
            b.qhead == a.qhead,
            b.n_vars == a.n_vars,
        ensures
            b.watch_inv_at(q, a.watches@[q]@),
    {
        let pend = a.watches@[q]@;
        assert forall|w: int| 0 <= w < pend.len() implies (#[trigger] pend[w]).cref < b.clauses@.len()
            && b.cl(pend[w].cref as int).contains(pend[w].blocker) by {
            assert(watch_ok(a.watches@[q]@[w], a.n_vars as int, a.clauses@.len() as int));
            assert(a.cl(a.watches@[q]@[w].cref as int).contains(a.watches@[q]@[w].blocker));
        }
        assert forall|i: int, w: int| 0 <= i < 2 * b.n_vars && i != q && 0 <= w < b.watches@[i]@.len()
            implies b.cl((#[trigger] b.watches@[i]@[w]).cref as int).contains(b.watches@[i]@[w].blocker) by {
            assert(b.watches@[i] == a.watches@[i]);
            assert(a.cl(a.watches@[i]@[w].cref as int).contains(a.watches@[i]@[w].blocker));
        }
        assert forall|c: int, y: int| 0 <= c < b.clauses@.len() && 0 <= y < 2 && 2 <= b.cl(c).len()
            implies (if (#[trigger] b.cl(c)[y]).code() == q {
                exists|w: int| 0 <= w < pend.len() && (#[trigger] pend[w]).cref == c
            } else {
                b.watched_in(c, b.cl(c)[y])
            }) by {
            let l = a.cl(c)[y];
            assert(a.cl(c).len() >= 2);
            assert(a.watched_in(c, a.cl(c)[0]) && a.watched_in(c, a.cl(c)[1]));
            assert(a.watched_in(c, l));
            lemma_lit_code(l);
            let w = choose|w: int| 0 <= w < a.watches@[l.code() as int]@.len() && (#[trigger] a.watches@[l.code() as int]@[w]).cref == c;
            if l.code() != q {
                assert(b.watches@[l.code() as int] == a.watches@[l.code() as int]);
                assert(b.watches@[l.code() as int]@[w].cref == c);
            } else {
                assert(pend[w].cref == c);
            }
        }
        assert forall|c: int, x: int| 0 <= c < b.clauses@.len() && 0 <= x < 2 && x < b.cl(c).len()
            && b.settled(#[trigger] b.cl(c)[x]) implies b.covered(c, b.cl(c)[x]) by {
            assert(a.settled(a.cl(c)[x]));
            assert(a.covered(c, a.cl(c)[x]));
            let k = choose|k: int| 0 <= k < a.cl(c).len() && a.is_true(#[trigger] a.cl(c)[k])
                && a.lv(a.cl(c)[k].spec_var() as int) <= a.lv(a.cl(c)[x].spec_var() as int);
            assert(b.is_true(b.cl(c)[k]));
        }
        assert forall|c: int| 0 <= c < b.clauses@.len() && #[trigger] b.cl(c).len() >= 2
            implies b.cl(c)[0] != b.cl(c)[1] by {
            assert(a.cl(c).len() >= 2);
        }
        assert forall|c: int| 0 <= c < b.clauses@.len() && #[trigger] b.cl(c).len() == 1
            implies b.is_true(b.cl(c)[0]) && b.lv(b.cl(c)[0].spec_var() as int) == 0 by {
            assert(a.cl(c).len() == 1);
        }
    }

    /// Putting the visited list back as `pend` restores the watch invariant.
    proof fn lemma_visit_exit(a: Solver, b: Solver, q: int, pend: Seq<Watcher>)
        requires
            a.watch_inv_at(q, pend),
            0 <= q < 2 * a.n_vars,
            b.watches@.len() == a.watches@.len(),
            a.watches@.len() == 2 * a.n_vars,
            a.inv_shape(),
            forall|i: int| 0 <= i < b.watches@.len() && i != q ==> #[trigger] b.watches@[i] == a.watches@[i],
            b.watches@[q]@ == pend,
            b.clauses@ == a.clauses@,
            b.assigns@ == a.assigns@,
            b.level@ == a.level@,
            b.pos@ == a.pos@,
            b.qhead == a.qhead,
            b.n_vars == a.n_vars,
        ensures
            b.watch_inv(),
    {
        assert forall|i: int, w: int| 0 <= i < 2 * b.n_vars && 0 <= w < b.watches@[i]@.len()
            implies b.cl((#[trigger] b.watches@[i]@[w]).cref as int).contains(b.watches@[i]@[w].blocker) by {
            if i == q {
                assert(b.watches@[i]@[w] == pend[w]);
            } else {
                assert(b.watches@[i] == a.watches@[i]);
                assert(a.cl(a.watches@[i]@[w].cref as int).contains(a.watches@[i]@[w].blocker));
            }
        }
        assert forall|c: int| 0 <= c < b.clauses@.len() && #[trigger] b.cl(c).len() >= 2
            implies b.watched_in(c, b.cl(c)[0]) && b.watched_in(c, b.cl(c)[1]) && b.cl(c)[0] != b.cl(c)[1] by {
            assert(a.cl(c).len() >= 2);
            assert forall|y: int| 0 <= y < 2 implies b.watched_in(c, #[trigger] b.cl(c)[y]) by {
                let l = a.cl(c)[y];
                lemma_lit_code(l);
                if l.code() == q {
                    let w = choose|w: int| 0 <= w < pend.len() && (#[trigger] pend[w]).cref == c;
                    assert(b.watches@[q]@[w].cref == c);
                } else {
                    assert(a.watched_in(c, l));
                    assert(l.spec_var() < a.n_vars);
                    let w = choose|w: int| 0 <= w < a.watches@[l.code() as int]@.len() && (#[trigger] a.watches@[l.code() as int]@[w]).cref == c;
                    assert(b.watches@[l.code() as int] == a.watches@[l.code() as int]);
                    assert(b.watches@[l.code() as int]@[w].cref == c);
                }
            }
            assert(b.watched_in(c, b.cl(c)[0]));
            assert(b.watched_in(c, b.cl(c)[1]));
        }
        assert forall|c: int, x: int| 0 <= c < b.clauses@.len() && 0 <= x < 2 && x < b.cl(c).len()
            && b.settled(#[trigger] b.cl(c)[x]) implies b.covered(c, b.cl(c)[x]) by {
            assert(a.settled(a.cl(c)[x]));
            assert(a.covered(c, a.cl(c)[x]));
            let k = choose|k: int| 0 <= k < a.cl(c).len() && a.is_true(#[trigger] a.cl(c)[k])
                && a.lv(a.cl(c)[k].spec_var() as int) <= a.lv(a.cl(c)[x].spec_var() as int);
            assert(b.is_true(b.cl(c)[k]));
        }
        assert forall|c: int| 0 <= c < b.clauses@.len() && #[trigger] b.cl(c).len() == 1
            implies b.is_true(b.cl(c)[0]) && b.lv(b.cl(c)[0].spec_var() as int) == 0 by {
            assert(a.cl(c).len() == 1);
        }
    }

    /// Moving the propagation point past the literal whose negation `np`
    /// every watching clause makes up for keeps the watch invariant.
    proof fn lemma_visit_advance(a: Solver, b: Solver, np: Lit)
        requires
            a.wf_core(),
            a.watch_inv(),
            a.qhead < a.trail@.len(),
            a.trail@[a.qhead as int].spec_var() == np.spec_var(),
            a.is_false(np),
            forall|c: int, y: int| 0 <= c < a.clauses@.len() && 0 <= y < 2 && y < a.cl(c).len()
                && #[trigger] a.cl(c)[y] == np ==> a.covered(c, np),
            b.watches@ == a.watches@,
            b.clauses@ == a.clauses@,
            b.assigns@ == a.assigns@,
            b.level@ == a.level@,
            b.pos@ == a.pos@,
            b.qhead == a.qhead + 1,
            b.n_vars == a.n_vars,
        ensures
            b.watch_inv(),
    {
        let d = a.qhead as int;
        assert(a.tv(d) == np.spec_var());
        assert forall|c: int, x: int| 0 <= c < b.clauses@.len() && 0 <= x < 2 && x < b.cl(c).len()
            && b.settled(#[trigger] b.cl(c)[x]) implies b.covered(c, b.cl(c)[x]) by {
            let l = a.cl(c)[x];
            let v = l.spec_var() as int;
            if a.pos@[v] < d {
                assert(a.settled(l));
                assert(a.covered(c, l));
                let k = choose|k: int| 0 <= k < a.cl(c).len() && a.is_true(#[trigger] a.cl(c)[k])
                    && a.lv(a.cl(c)[k].spec_var() as int) <= a.lv(l.spec_var() as int);
                assert(b.is_true(b.cl(c)[k]));
            } else {
                assert(a.pos@[v] == d);
                assert(a.assigned(v));
                assert(a.tv(a.pos@[v]) == v);
                assert(v == np.spec_var());
                lemma_lit_eq(l, np);
                assert(a.covered(c, np));
                let k = choose|k: int| 0 <= k < a.cl(c).len() && a.is_true(#[trigger] a.cl(c)[k])
                    && a.lv(a.cl(c)[k].spec_var() as int) <= a.lv(np.spec_var() as int);
                assert(b.is_true(b.cl(c)[k]));
            }
        }
        assert forall|c: int| 0 <= c < b.clauses@.len() && #[trigger] b.cl(c).len() >= 2
            implies b.watched_in(c, b.cl(c)[0]) && b.watched_in(c, b.cl(c)[1]) && b.cl(c)[0] != b.cl(c)[1] by {
            assert(a.cl(c).len() >= 2);
            assert(a.watched_in(c, a.cl(c)[0]) && a.watched_in(c, a.cl(c)[1]));
            let l0 = a.cl(c)[0];
            let l1 = a.cl(c)[1];
            let w0 = choose|w: int| 0 <= w < a.watches@[l0.code() as int]@.len() && (#[trigger] a.watches@[l0.code() as int]@[w]).cref == c;
            let w1 = choose|w: int| 0 <= w < a.watches@[l1.code() as int]@.len() && (#[trigger] a.watches@[l1.code() as int]@[w]).cref == c;
            assert(b.watches@[l0.code() as int]@[w0].cref == c);
            assert(b.watches@[l1.code() as int]@[w1].cref == c);
        }
        assert forall|i: int, w: int| 0 <= i < 2 * b.n_vars && 0 <= w < b.watches@[i]@.len()
            implies b.cl((#[trigger] b.watches@[i]@[w]).cref as int).contains(b.watches@[i]@[w].blocker) by {
            assert(a.cl(a.watches@[i]@[w].cref as int).contains(a.watches@[i]@[w].blocker));
        }
        assert forall|c: int| 0 <= c < b.clauses@.len() && #[trigger] b.cl(c).len() == 1
            implies b.is_true(b.cl(c)[0]) && b.lv(b.cl(c)[0].spec_var() as int) == 0 by {
            assert(a.cl(c).len() == 1);
        }
    }

    /// Exchanging two literals of clause `c` keeps a true literal that makes
    /// up for `l`.
    proof fn lemma_covered_swap(a: Solver, b: Solver, c: int, i: int, j: int, l: Lit)
        requires
            a.covered(c, l),
            0 <= i < a.cl(c).len(),
            0 <= j < a.cl(c).len(),
            b.cl(c) == swapped(a.cl(c), i, j),
            b.assigns@ == a.assigns@,
            b.level@ == a.level@,
        ensures
            b.covered(c, l),
    {
        let k = choose|k: int| 0 <= k < a.cl(c).len() && a.is_true(#[trigger] a.cl(c)[k])
            && a.lv(a.cl(c)[k].spec_var() as int) <= a.lv(l.spec_var() as int);
        let m = if k == i { j } else if k == j { i } else { k };
        assert(b.cl(c)[m] == a.cl(c)[k]);
    }

    /// Exchanging two literals of clause `c` keeps which literals it holds.
    proof fn lemma_contains_swap(s: Seq<Lit>, i: int, j: int, x: Lit)
        requires
            0 <= i < s.len(),
            0 <= j < s.len(),
        ensures
            swapped(s, i, j).contains(x) == s.contains(x),
    {
        let t = swapped(s, i, j);
        if s.contains(x) {
            let k = choose|k: int| 0 <= k < s.len() && s[k] == x;
            let m = if k == i { j } else if k == j { i } else { k };
            assert(t[m] == x);
        }
        if t.contains(x) {
            let m = choose|m: int| 0 <= m < t.len() && t[m] == x;
            let k = if m == i { j } else if m == j { i } else { m };
            assert(s[k] == x);
        }
    }

    /// The visiting invariant survives a continuation of the assignment.
    proof fn lemma_visit_extend(a: Solver, b: Solver, q: int, pend: Seq<Watcher>)
        requires
            a.wf_core(),
            b.wf_core(),
            a.watch_inv_at(q, pend),
            b.extends(a),
            b.clauses@ == a.clauses@,
            b.watches@ == a.watches@,
            b.qhead == a.qhead,
        ensures
            b.watch_inv_at(q, pend),
    {
        assert forall|c: int, y: int| 0 <= c < b.clauses@.len() && 0 <= y < 2 && 2 <= b.cl(c).len()
            implies (if (#[trigger] b.cl(c)[y]).code() == q {
                exists|w: int| 0 <= w < pend.len() && (#[trigger] pend[w]).cref == c
            } else {
                b.watched_in(c, b.cl(c)[y])
            }) by {
            let l = a.cl(c)[y];
            if l.code() != q {
                assert(a.watched_in(c, l));
                let w = choose|w: int| 0 <= w < a.watches@[l.code() as int]@.len() && (#[trigger] a.watches@[l.code() as int]@[w]).cref == c;
                assert(b.watches@[l.code() as int]@[w].cref == c);
            }
        }
        assert forall|c: int, x: int| 0 <= c < b.clauses@.len() && 0 <= x < 2 && x < b.cl(c).len()
            && b.settled(#[trigger] b.cl(c)[x]) implies b.covered(c, b.cl(c)[x]) by {
            let l = b.cl(c)[x];
            assert(a.cl(c) == b.cl(c));
            Self::lemma_settled_before(a, b, l);
            assert(a.covered(c, l));
            let k = choose|k: int| 0 <= k < a.cl(c).len() && a.is_true(#[trigger] a.cl(c)[k])
                && a.lv(a.cl(c)[k].spec_var() as int) <= a.lv(l.spec_var() as int);
            let vk = a.cl(c)[k].spec_var() as int;
            let vl = l.spec_var() as int;
            assert(a.assigns@[vk] != 0);
            assert(a.assigns@[vl] != 0);
            assert(b.assigns@[vk] == a.assigns@[vk]);
            assert(b.assigns@[vl] == a.assigns@[vl]);
            assert(b.is_true(b.cl(c)[k]));
        }
        assert forall|c: int| 0 <= c < b.clauses@.len() && #[trigger] b.cl(c).len() == 1
            implies b.is_true(b.cl(c)[0]) && b.lv(b.cl(c)[0].spec_var() as int) == 0 by {
            assert(a.cl(c).len() == 1);
            let v = a.cl(c)[0].spec_var() as int;
            assert(a.assigns@[v] != 0);
            assert(b.assigns@[v] == a.assigns@[v]);
        }
        assert forall|i: int, w: int| 0 <= i < 2 * b.n_vars && i != q && 0 <= w < b.watches@[i]@.len()
            implies b.cl((#[trigger] b.watches@[i]@[w]).cref as int).contains(b.watches@[i]@[w].blocker) by {
            assert(a.cl(a.watches@[i]@[w].cref as int).contains(a.watches@[i]@[w].blocker));
        }
        assert forall|c: int| 0 <= c < b.clauses@.len() && #[trigger] b.cl(c).len() >= 2
            implies b.cl(c)[0] != b.cl(c)[1] by {
            assert(a.cl(c).len() >= 2);
        }
    }

    /// Exchanging the two watched literals of clause `c` keeps the visiting
    /// invariant.
    proof fn lemma_visit_swap01(a: Solver, b: Solver, q: int, pend: Seq<Watcher>, c: int)
        requires
            a.watch_inv_at(q, pend),
            a.inv_shape(),
            swapped_at(a.clauses@, b.clauses@, c, 0, 1),
            b.watches@ == a.watches@,
            b.assigns@ == a.assigns@,
            b.level@ == a.level@,
            b.pos@ == a.pos@,
            b.qhead == a.qhead,
            b.n_vars == a.n_vars,
        ensures
            b.watch_inv_at(q, pend),
    {
        let r = a.cl(c);
        assert(b.cl(c) == swapped(r, 0, 1));
        assert forall|i: int, w: int| 0 <= i < 2 * b.n_vars && i != q && 0 <= w < b.watches@[i]@.len()
            implies b.cl((#[trigger] b.watches@[i]@[w]).cref as int).contains(b.watches@[i]@[w].blocker) by {
            let ww = a.watches@[i]@[w];
            assert(a.cl(ww.cref as int).contains(ww.blocker));
            assert(watch_ok(ww, a.n_vars as int, a.clauses@.len() as int));
            if ww.cref as int == c {
                Self::lemma_contains_swap(r, 0, 1, ww.blocker);
            } else {
                assert(b.clauses@[ww.cref as int] == a.clauses@[ww.cref as int]);
            }
        }
        assert forall|w: int| 0 <= w < pend.len() implies (#[trigger] pend[w]).cref < b.clauses@.len()
            && b.cl(pend[w].cref as int).contains(pend[w].blocker) by {
            let ww = pend[w];
            assert(a.cl(ww.cref as int).contains(ww.blocker));
            if ww.cref as int == c {
                Self::lemma_contains_swap(r, 0, 1, ww.blocker);
            } else {
                assert(b.clauses@[ww.cref as int] == a.clauses@[ww.cref as int]);
            }
        }
        assert forall|c2: int, y: int| 0 <= c2 < b.clauses@.len() && 0 <= y < 2 && 2 <= b.cl(c2).len()
            implies (if (#[trigger] b.cl(c2)[y]).code() == q {
                exists|w: int| 0 <= w < pend.len() && (#[trigger] pend[w]).cref == c2
            } else {
                b.watched_in(c2, b.cl(c2)[y])
            }) by {
            let y2 = if c2 == c { 1 - y } else { y };
            if c2 != c {
                assert(b.clauses@[c2] == a.clauses@[c2]);
            }
            assert(b.cl(c2)[y] == a.cl(c2)[y2]);
            let l = a.cl(c2)[y2];
            if l.code() != q {
                assert(a.watched_in(c2, l));
                let w = choose|w: int| 0 <= w < a.watches@[l.code() as int]@.len() && (#[trigger] a.watches@[l.code() as int]@[w]).cref == c2;
                assert(b.watches@[l.code() as int]@[w].cref == c2);
            }
        }
        assert forall|c2: int| 0 <= c2 < b.clauses@.len() && #[trigger] b.cl(c2).len() >= 2
            implies b.cl(c2)[0] != b.cl(c2)[1] by {
            if c2 != c {
                assert(b.clauses@[c2] == a.clauses@[c2]);
            }
            assert(a.cl(c2).len() >= 2);
        }
        assert forall|c2: int, x: int| 0 <= c2 < b.clauses@.len() && 0 <= x < 2 && x < b.cl(c2).len()
            && b.settled(#[trigger] b.cl(c2)[x]) implies b.covered(c2, b.cl(c2)[x]) by {
            if c2 != c {
                assert(b.clauses@[c2] == a.clauses@[c2]);
                let l = a.cl(c2)[x];
                assert(a.settled(l));
                assert(a.covered(c2, l));
                let k = choose|k: int| 0 <= k < a.cl(c2).len() && a.is_true(#[trigger] a.cl(c2)[k])
                    && a.lv(a.cl(c2)[k].spec_var() as int) <= a.lv(l.spec_var() as int);
                assert(b.is_true(b.cl(c2)[k]));
            } else {
                let l = r[1 - x];
                assert(b.cl(c)[x] == l);
                assert(a.settled(l));
                assert(a.covered(c, l));
                Self::lemma_covered_swap(a, b, c, 0, 1, l);
            }
        }
        assert forall|c2: int| 0 <= c2 < b.clauses@.len() && #[trigger] b.cl(c2).len() == 1
            implies b.is_true(b.cl(c2)[0]) && b.lv(b.cl(c2)[0].spec_var() as int) == 0 by {
            if c2 != c {
                assert(b.clauses@[c2] == a.clauses@[c2]);
            }
            assert(a.cl(c2).len() == 1);
        }
    }

    /// Moving the watch of clause `c` from its false literal at `slot` to the
    /// literal `lk` at `k`, and adding the matching watch, keeps the visiting
    /// invariant.
    proof fn lemma_visit_move(a: Solver, b: Solver, q: int, pend: Seq<Watcher>, c: int, slot: int, k: int, lk: Lit, other: Lit, wnew: Watcher)
        requires
            a.watch_inv_at(q, pend),
            a.inv_shape(),
            0 <= c < a.clauses@.len(),
            0 <= slot < 2,
            2 <= k < a.cl(c).len(),
            swapped_at(a.clauses@, b.clauses@, c, slot, k),
            a.cl(c)[slot].code() == q,
            a.is_false(a.cl(c)[slot]),
            lk == a.cl(c)[k],
            !a.is_false(lk),
            other == a.cl(c)[1 - slot],
            lk != other,
            wnew.cref == c,
            wnew.blocker == other,
            lk.spec_var() < a.n_vars,
            b.watches@.len() == a.watches@.len(),
            b.watches@[lk.code() as int]@ == a.watches@[lk.code() as int]@.push(wnew),
            forall|i: int| 0 <= i < b.watches@.len() && i != lk.code() ==> #[trigger] b.watches@[i] == a.watches@[i],
            b.assigns@ == a.assigns@,
            b.level@ == a.level@,
            b.pos@ == a.pos@,
            b.qhead == a.qhead,
            b.n_vars == a.n_vars,
        ensures
            b.watch_inv_at(q, pend),
    {
        let r = a.cl(c);
        let lq = lk.code() as int;
        lemma_lit_code(lk);
        if lk.code() == q {
            Self::lemma_code_inj(lk, r[slot]);
        }
        assert(lq != q);
        assert(b.cl(c) == swapped(r, slot, k));
        assert(b.cl(c)[slot] == lk);
        assert(b.cl(c)[1 - slot] == other);
        assert(r[0] != r[1]);
        if other.code() == q {
            Self::lemma_code_inj(other, r[slot]);
        }
        assert forall|i: int, w: int| 0 <= i < 2 * b.n_vars && i != q && 0 <= w < b.watches@[i]@.len()
            implies b.cl((#[trigger] b.watches@[i]@[w]).cref as int).contains(b.watches@[i]@[w].blocker) by {
            if i == lq && w == a.watches@[lq]@.len() {
                assert(b.watches@[i]@[w] == wnew);
                assert(b.cl(c)[1 - slot] == other);
            } else {
                assert(b.watches@[i]@[w] == a.watches@[i]@[w]);
                let ww = a.watches@[i]@[w];
                assert(a.cl(ww.cref as int).contains(ww.blocker));
                assert(watch_ok(ww, a.n_vars as int, a.clauses@.len() as int));
                if ww.cref as int == c {
                    Self::lemma_contains_swap(r, slot, k, ww.blocker);
                } else {
                    assert(b.clauses@[ww.cref as int] == a.clauses@[ww.cref as int]);
                }
            }
        }
        assert forall|w: int| 0 <= w < pend.len() implies (#[trigger] pend[w]).cref < b.clauses@.len()
            && b.cl(pend[w].cref as int).contains(pend[w].blocker) by {
            let ww = pend[w];
            assert(a.cl(ww.cref as int).contains(ww.blocker));
            if ww.cref as int == c {
                Self::lemma_contains_swap(r, slot, k, ww.blocker);
            } else {
                assert(b.clauses@[ww.cref as int] == a.clauses@[ww.cref as int]);
            }
        }
        assert forall|c2: int, y: int| 0 <= c2 < b.clauses@.len() && 0 <= y < 2 && 2 <= b.cl(c2).len()
            implies (if (#[trigger] b.cl(c2)[y]).code() == q {
                exists|w: int| 0 <= w < pend.len() && (#[trigger] pend[w]).cref == c2
            } else {
                b.watched_in(c2, b.cl(c2)[y])
            }) by {
            if c2 == c && y == slot {
                let w = a.watches@[lq]@.len() as int;
                assert(b.watches@[lq]@[w].cref == c);
                assert(b.watched_in(c, lk));
            } else {
                if c2 != c {
                    assert(b.clauses@[c2] == a.clauses@[c2]);
                }
                assert(b.cl(c2)[y] == a.cl(c2)[y]);
                let l = a.cl(c2)[y];
                if l.code() != q {
                    assert(a.watched_in(c2, l));
                    assert(l.spec_var() < a.n_vars);
                    lemma_lit_code(l);
                    let w = choose|w: int| 0 <= w < a.watches@[l.code() as int]@.len() && (#[trigger] a.watches@[l.code() as int]@[w]).cref == c2;
                    assert(b.watches@[l.code() as int]@[w] == a.watches@[l.code() as int]@[w]);
                    assert(b.watches@[l.code() as int]@[w].cref == c2);
                }
            }
        }
        assert forall|c2: int| 0 <= c2 < b.clauses@.len() && #[trigger] b.cl(c2).len() >= 2
            implies b.cl(c2)[0] != b.cl(c2)[1] by {
            if c2 != c {
                assert(b.clauses@[c2] == a.clauses@[c2]);
                assert(a.cl(c2).len() >= 2);
            }
        }
        assert forall|c2: int, x: int| 0 <= c2 < b.clauses@.len() && 0 <= x < 2 && x < b.cl(c2).len()
            && b.settled(#[trigger] b.cl(c2)[x]) implies b.covered(c2, b.cl(c2)[x]) by {
            if c2 != c {
                assert(b.clauses@[c2] == a.clauses@[c2]);
                let l = a.cl(c2)[x];
                assert(a.settled(l));
                assert(a.covered(c2, l));
                let kk = choose|kk: int| 0 <= kk < a.cl(c2).len() && a.is_true(#[trigger] a.cl(c2)[kk])
                    && a.lv(a.cl(c2)[kk].spec_var() as int) <= a.lv(l.spec_var() as int);
                assert(b.is_true(b.cl(c2)[kk]));
            } else {
                assert(x != slot);
                assert(b.cl(c)[x] == other);
                assert(a.settled(r[x]));
                assert(a.covered(c, other));
                Self::lemma_covered_swap(a, b, c, slot, k, other);
            }
        }
        assert forall|c2: int| 0 <= c2 < b.clauses@.len() && #[trigger] b.cl(c2).len() == 1
            implies b.is_true(b.cl(c2)[0]) && b.lv(b.cl(c2)[0].spec_var() as int) == 0 by {
            if c2 != c {
                assert(b.clauses@[c2] == a.clauses@[c2]);
            }
            assert(a.cl(c2).len() == 1);
        }
    }

    /// A visited watch of a clause that no longer has a watched literal in
    /// the visited list may be dropped.
    proof fn lemma_visit_drop(a: Solver, q: int, kept: Seq<Watcher>, r: Seq<Watcher>, c: int)
        requires
            a.watch_inv_at(q, kept + r),
            r.len() > 0,
            r[0].cref == c,
            a.cl(c).len() >= 2 ==> a.cl(c)[0].code() != q && a.cl(c)[1].code() != q,
        ensures
            a.watch_inv_at(q, kept + r.drop_first()),
    {
        let p1 = kept + r;
        let p2 = kept + r.drop_first();
        assert forall|w: int| 0 <= w < p2.len() implies (#[trigger] p2[w]).cref < a.clauses@.len()
            && a.cl(p2[w].cref as int).contains(p2[w].blocker) by {
            if w < kept.len() {
                assert(p2[w] == p1[w]);
            } else {
                assert(p2[w] == p1[w + 1]);
            }
        }
        assert forall|c2: int, y: int| 0 <= c2 < a.clauses@.len() && 0 <= y < 2 && 2 <= a.cl(c2).len()
            implies (if (#[trigger] a.cl(c2)[y]).code() == q {
                exists|w: int| 0 <= w < p2.len() && (#[trigger] p2[w]).cref == c2
            } else {
                a.watched_in(c2, a.cl(c2)[y])
            }) by {
            if a.cl(c2)[y].code() == q {
                let w = choose|w: int| 0 <= w < p1.len() && (#[trigger] p1[w]).cref == c2;
                assert(c2 != c);
                if w < kept.len() {
                    assert(p2[w] == p1[w]);
                } else {
                    assert(w != kept.len());
                    assert(p2[w - 1] == p1[w]);
                }
            }
        }
    }

    /// Every clause watching `np` either makes up for it or still has a
    /// watch to visit at index `i` or later.
    spec fn pending_ok(self, np: Lit, ws: Seq<Watcher>, i: int) -> bool {
        forall|c: int, y: int| 0 <= c < self.clauses@.len() && 0 <= y < 2 && y < self.cl(c).len()
            && #[trigger] self.cl(c)[y] == np
            ==> self.covered(c, np) || exists|j: int| i <= j < ws.len() && (#[trigger] ws[j]).cref == c
    }

    /// Every assigned variable has a level no higher than that of `l`, a
    /// literal of the current level (or of level 0 when no decision is open).
    proof fn lemma_levels_below(self, l: Lit)
        requires
            self.inv_shape(),
            self.inv_trail(),
            l.spec_var() < self.n_vars,
            self.assigned(l.spec_var() as int),
            self.cur() > 0 ==> self.lv(l.spec_var() as int) == self.cur(),
        ensures
            forall|u: int| 0 <= u < self.n_vars && self.assigned(u) ==> #[trigger] self.lv(u) <= self.lv(l.spec_var() as int),
    {
        let v = l.spec_var() as int;
        assert(self.tv(self.pos@[v]) == v);
        assert forall|u: int| 0 <= u < self.n_vars && self.assigned(u) implies #[trigger] self.lv(u) <= self.lv(v) by {
            assert(self.tv(self.pos@[u]) == u);
        }
    }

    /// One more visited watch keeps every watching clause accounted for.
    proof fn lemma_pending_next(a: Solver, b: Solver, np: Lit, ws: Seq<Watcher>, i0: int, c: int)
        requires
            a.pending_ok(np, ws, i0),
            0 <= i0 < ws.len(),
            ws[i0].cref == c,
            b.clauses@.len() == a.clauses@.len(),
            forall|c2: int| 0 <= c2 < a.clauses@.len() && c2 != c ==> #[trigger] b.clauses@[c2] == a.clauses@[c2],
            a.assigns@[np.spec_var() as int] != 0,
            forall|v: int| #![trigger b.assigns@[v]] 0 <= v < a.assigns@.len() && a.assigns@[v] != 0
                ==> b.assigns@[v] == a.assigns@[v] && b.level@[v] == a.level@[v],
            a.assigns@.len() == a.n_vars,
            clauses_ok(a.clauses@, a.n_vars as int),
            b.covered(c, np) || forall|y: int| 0 <= y < 2 && y < b.cl(c).len() ==> #[trigger] b.cl(c)[y] != np,
        ensures
            b.pending_ok(np, ws, i0 + 1),
    {
        assert forall|c2: int, y: int| 0 <= c2 < b.clauses@.len() && 0 <= y < 2 && y < b.cl(c2).len()
            && #[trigger] b.cl(c2)[y] == np
            implies b.covered(c2, np) || exists|j: int| i0 + 1 <= j < ws.len() && (#[trigger] ws[j]).cref == c2 by {
            if c2 != c {
                assert(b.clauses@[c2] == a.clauses@[c2]);
                assert(a.cl(c2)[y] == np);
                if a.covered(c2, np) {
                    let k = choose|k: int| 0 <= k < a.cl(c2).len() && a.is_true(#[trigger] a.cl(c2)[k])
                        && a.lv(a.cl(c2)[k].spec_var() as int) <= a.lv(np.spec_var() as int);
                    let vk = a.cl(c2)[k].spec_var() as int;
                    assert(vk < a.n_vars);
                    assert(b.assigns@[vk] == a.assigns@[vk]);
                    assert(b.assigns@[np.spec_var() as int] == a.assigns@[np.spec_var() as int]);
                    assert(b.is_true(b.cl(c2)[k]));
                } else {
                    let j = choose|j: int| i0 <= j < ws.len() && (#[trigger] ws[j]).cref == c2;
                    assert(j != i0);
                }
            }
        }
    }

    /// The visiting invariant depends only on the clauses' literals, the
    /// watches, the assignment and the propagation point.
    proof fn lemma_watch_inv_at_same(a: Solver, b: Solver, q: int, pend: Seq<Watcher>)
        requires
            a.watch_inv_at(q, pend),
            b.clauses@.len() == a.clauses@.len(),
            forall|c: int| 0 <= c < a.clauses@.len() ==> #[trigger] b.cl(c) == a.cl(c),
            b.watches@ == a.watches@,
            b.assigns@ == a.assigns@,
            b.level@ == a.level@,
            b.pos@ == a.pos@,
            b.qhead == a.qhead,
            b.n_vars == a.n_vars,
            forall|i: int, w: int| 0 <= i < 2 * a.n_vars && 0 <= w < a.watches@[i]@.len() ==> (#[trigger] a.watches@[i]@[w]).cref < a.clauses@.len(),
        ensures
            b.watch_inv_at(q, pend),
    {
        assert forall|i: int, w: int| 0 <= i < 2 * b.n_vars && i != q && 0 <= w < b.watches@[i]@.len()
            implies b.cl((#[trigger] b.watches@[i]@[w]).cref as int).contains(b.watches@[i]@[w].blocker) by {
            assert(a.cl(a.watches@[i]@[w].cref as int).contains(a.watches@[i]@[w].blocker));
            assert(b.cl(a.watches@[i]@[w].cref as int) == a.cl(a.watches@[i]@[w].cref as int));
        }
        assert forall|w: int| 0 <= w < pend.len() implies (#[trigger] pend[w]).cref < b.clauses@.len()
            && b.cl(pend[w].cref as int).contains(pend[w].blocker) by {
            assert(b.cl(pend[w].cref as int) == a.cl(pend[w].cref as int));
        }
        assert forall|c: int, y: int| 0 <= c < b.clauses@.len() && 0 <= y < 2 && 2 <= b.cl(c).len()
            implies (if (#[trigger] b.cl(c)[y]).code() == q {
                exists|w: int| 0 <= w < pend.len() && (#[trigger] pend[w]).cref == c
            } else {
                b.watched_in(c, b.cl(c)[y])
            }) by {
            assert(b.cl(c) == a.cl(c));
            let l = a.cl(c)[y];
            if l.code() != q {
                assert(a.watched_in(c, l));
                let w = choose|w: int| 0 <= w < a.watches@[l.code() as int]@.len() && (#[trigger] a.watches@[l.code() as int]@[w]).cref == c;
                assert(b.watches@[l.code() as int]@[w].cref == c);
            }
        }
        assert forall|c: int| 0 <= c < b.clauses@.len() && #[trigger] b.cl(c).len() >= 2
            implies b.cl(c)[0] != b.cl(c)[1] by {
            assert(b.cl(c) == a.cl(c));
        }
        assert forall|c: int, x: int| 0 <= c < b.clauses@.len() && 0 <= x < 2 && x < b.cl(c).len()
            && b.settled(#[trigger] b.cl(c)[x]) implies b.covered(c, b.cl(c)[x]) by {
            assert(b.cl(c) == a.cl(c));
            let l = a.cl(c)[x];
            assert(a.settled(l));
            assert(a.covered(c, l));
            let k = choose|k: int| 0 <= k < a.cl(c).len() && a.is_true(#[trigger] a.cl(c)[k])
                && a.lv(a.cl(c)[k].spec_var() as int) <= a.lv(l.spec_var() as int);
            assert(b.is_true(b.cl(c)[k]));
        }
        assert forall|c: int| 0 <= c < b.clauses@.len() && #[trigger] b.cl(c).len() == 1
            implies b.is_true(b.cl(c)[0]) && b.lv(b.cl(c)[0].spec_var() as int) == 0 by {
            assert(b.cl(c) == a.cl(c));
        }
    }

    /// Unit propagation over the two-watched-literal lists: for each newly
    /// assigned literal `p`, visit the clauses watching `¬p`; move the watch
    /// to another literal that is not false, assign the remaining literal of
    /// a clause that has become unit, or stop at a clause that has become
    /// false and return its index (the propagation point then stays at the
    /// literal whose visit found it).  Without a conflict, propagation is
    /// complete: no stored clause is false, and none is unit.
    #[verifier::spinoff_prover]
    #[verifier::rlimit(100)]
    fn propagate(&mut self) -> (confl: Option<usize>)
        requires
            old(self).wf(),
        ensures
            final(self).wf(),
            final(self).extends(*old(self)),
            confl is None ==> final(self).qhead == final(self).trail@.len(),
            confl matches Some(c) ==> final(self).conflicting(c as int),
            confl is None ==> forall|c: int| 0 <= c < final(self).clauses@.len()
                ==> !#[trigger] final(self).clause_false(c) && !final(self).clause_unit(c),
    {
        let ghost s0 = *self;
        while self.qhead < self.trail.len()
            invariant
                self.wf(),
                self.extends(s0),
                s0.wf(),
                s0 == *old(self),
            decreases self.n_vars - self.qhead,
        {
            let ghost s1 = *self;
            let p = self.trail[self.qhead];
            proof {
                let j = self.qhead as int;
                if self.cur() > 0 {
                    assert(self.trail_lim@[self.cur() - 1] <= j);
                }
                let lp = self.lv(p.spec_var() as int);
                if lp < self.cur() {
                    assert(self.trail_lim@[lp] <= self.trail_lim@[self.cur() - 1]);
                }
            }
            let np = p.neg();
            proof {
                lemma_neg(p);
                lemma_lit_code(np);
                assert(s1.is_true(p));
            }
            let q = np.index();
            let mut ws: Vec<Watcher> = Vec::new();
            std::mem::swap(&mut ws, &mut self.watches[q]);
            proof {
                Self::lemma_visit_enter(s1, *self, q as int);
                assert(ws@ =~= Seq::<Watcher>::empty() + ws@.subrange(0, ws@.len() as int));
                assert forall|ii: int, k: int| 0 <= ii < 2 * self.n_vars && 0 <= k < self.watches@[ii]@.len()
                    implies watch_ok(#[trigger] self.watches@[ii]@[k], self.n_vars as int, self.clauses@.len() as int) by {
                    assert(self.watches@[ii] == s1.watches@[ii]);
                }
                assert(self.inv_shape());
                assert(s1.trail@ =~= self.trail@.subrange(0, s1.trail@.len() as int));
                assert(self.extends(s1));
            }
            let ghost qh = self.qhead;
            let mut kept: Vec<Watcher> = Vec::new();
            let mut conflict: Option<usize> = None;
            let mut i: usize = 0;
            while i < ws.len() && conflict.is_none()
                invariant
                    self.wf_base(),
                    self.extends(s1),
                    s1.extends(s0),
                    s0.wf(),
                    i <= ws@.len(),
                    self.qhead == qh,
                    qh == s1.qhead,
                    qh < self.trail@.len(),
                    self.trail@[qh as int] == p,
                    self.is_false(np),
                    self.watches@[q as int]@.len() == 0,
                    self.watch_inv_at(q as int, kept@ + ws@.subrange(i as int, ws@.len() as int)),
                    conflict is None ==> self.pending_ok(np, ws@, i as int),
                    conflict is Some ==> i == ws@.len(),
                    s1.is_true(p),
                    p.spec_var() < s1.n_vars,
                    q == np.code(),
                    q < 2 * self.n_vars,
                    np.spec_var() == p.spec_var(),
                    np.spec_is_neg() == !p.spec_is_neg(),
                    p.spec_var() < self.n_vars,
                    self.is_true(p),
                    self.cur() > 0 ==> self.lv(p.spec_var() as int) == self.cur(),
                    forall|k: int| 0 <= k < ws@.len() ==> watch_ok(#[trigger] ws@[k], self.n_vars as int, self.clauses@.len() as int),
                    forall|k: int| 0 <= k < kept@.len() ==> watch_ok(#[trigger] kept@[k], self.n_vars as int, self.clauses@.len() as int),
                    conflict matches Some(c) ==> self.conflicting(c as int),
                decreases ws@.len() - i,
            {
                let w = ws[i];
                let ghost i0 = i as int;
                let ghost k0 = kept@;
                let ghost sa = *self;
                let ghost rest = ws@.subrange(i0, ws@.len() as int);
                proof {
                    assert(rest[0] == w);
                    assert(rest.drop_first() =~= ws@.subrange(i0 + 1, ws@.len() as int));
                    assert(k0.push(w) + ws@.subrange(i0 + 1, ws@.len() as int) =~= k0 + rest);
                    assert((k0 + rest)[k0.len() as int] == w);
                    assert(watch_ok(ws@[i0], self.n_vars as int, self.clauses@.len() as int));
                    self.lemma_levels_below(p);
                }
                i += 1;
                if self.lit_value(w.blocker) == Some(true) {
                    kept.push(w);
                    proof {
                        let c = w.cref as int;
                        assert(self.cl(c).contains(w.blocker));
                        let kb = choose|kb: int| 0 <= kb < self.cl(c).len() && self.cl(c)[kb] == w.blocker;
                        assert(self.is_true(self.cl(c)[kb]));
                        assert(self.covered(c, np));
                        Self::lemma_pending_next(sa, *self, np, ws@, i0, c);
                    }
                    continue;
                }
                let cref = w.cref;
                let clen = self.clauses[cref].lits.len();
                if clen < 2 {
                    kept.push(w);
                    proof {
                        let c = w.cref as int;
                        if self.cl(c).len() == 1 {
                            assert(self.is_true(self.cl(c)[0]));
                        }
                        Self::lemma_pending_next(sa, *self, np, ws@, i0, c);
                    }
                    continue;
                }
                let l0 = self.clauses[cref].lits[0];
                let l1 = self.clauses[cref].lits[1];
                let slot: usize;
                if l0 == np {
                    slot = 0;
                } else if l1 == np {
                    slot = 1;
                } else {
                    proof {
                        let c = cref as int;
                        lemma_lit_code(l0);
                        lemma_lit_code(l1);
                        if l0.code() == q {
                            Self::lemma_code_inj(l0, np);
                        }
                        if l1.code() == q {
                            Self::lemma_code_inj(l1, np);
                        }
                        Self::lemma_visit_drop(*self, q as int, k0, rest, c);
                        Self::lemma_pending_next(sa, *self, np, ws@, i0, c);
                    }
                    continue;
                }
                let other = if slot == 0 { l1 } else { l0 };
                let other_val = self.lit_value(other);
                if other_val == Some(true) {
                    kept.push(w);
                    proof {
                        let c = cref as int;
                        assert(self.cl(c)[1 - slot as int] == other);
                        assert(self.covered(c, np));
                        Self::lemma_pending_next(sa, *self, np, ws@, i0, c);
                    }
                    continue;
                }
                let mut k: usize = 2;
                let mut found: bool = false;
                while k < clen && !found
                    invariant
                        self.wf_base(),
                        cref < self.clauses@.len(),
                        clen == self.cl(cref as int).len(),
                        2 <= k <= clen,
                        found ==> k < clen && !self.is_false(self.cl(cref as int)[k as int]),
                        forall|m: int| 2 <= m < k ==> self.is_false(#[trigger] self.cl(cref as int)[m]),
                    decreases clen - k + (if found { 0int } else { 1int }),
                {
                    let lk = self.clauses[cref].lits[k];
                    if self.lit_value(lk) != Some(false) {
                        found = true;
                    } else {
                        k += 1;
                    }
                }
                let ghost s2 = *self;
                proof {
                    assert forall|u: int| 0 <= u < self.n_vars implies #[trigger] self.reason@[u] != Some(cref) by {
                        if self.reason@[u] == Some(cref) {
                            assert(self.reason_ok(u));
                            assert(self.tv(self.pos@[u]) == u);
                            assert(self.is_true(self.trail@[self.pos@[u]]));
                        }
                    }
                }
                if found {
                    let lk = self.clauses[cref].lits[k];
                    self.swap_lits(cref, slot, k);
                    proof { lemma_lit_code(lk); }
                    let ghost sb = *self;
                    self.push_watch(lk.index(), Watcher { cref, blocker: other });
                    proof {
                        assert(s2.cl(cref as int)[slot as int] == np);
                        assert(lits_distinct(s2.cl(cref as int)));
                        assert(s2.cl(cref as int)[1 - slot as int] == other);
                        assert(lk != other);
                        Self::lemma_visit_move(s2, *self, q as int, k0 + rest, cref as int, slot as int, k as int, lk, other,
                            Watcher { cref, blocker: other });
                        assert(self.cl(cref as int)[slot as int] == lk);
                        assert(self.cl(cref as int)[1 - slot as int] == other);
                        assert(self.cl(cref as int)[0] != self.cl(cref as int)[1]);
                        if other == np {
                            assert(s2.cl(cref as int)[0] == s2.cl(cref as int)[1]);
                        }
                        Self::lemma_visit_drop(*self, q as int, k0, rest, cref as int);
                        Self::lemma_pending_next(sa, *self, np, ws@, i0, cref as int);
                        Self::lemma_extends_trans(s2, sb, *self);
                        Self::lemma_extends_trans(s1, s2, *self);
                        assert(self.assigns@[p.spec_var() as int] == s1.assigns@[p.spec_var() as int]);
                        assert forall|kk: int| 0 <= kk < kept@.len() implies watch_ok(#[trigger] kept@[kk], self.n_vars as int, self.clauses@.len() as int) by {
                            assert(watch_ok(kept@[kk], s2.n_vars as int, s2.clauses@.len() as int));
                        }
                    }
                } else {
                    self.swap_lits(cref, 0, 1 - slot);
                    kept.push(w);
                    proof {
                        if slot == 0 {
                            Self::lemma_visit_swap01(s2, *self, q as int, k0 + rest, cref as int);
                        } else {
                            assert forall|c: int| 0 <= c < s2.clauses@.len() implies #[trigger] self.cl(c) == s2.cl(c) by {
                                if c == cref as int {
                                    assert(swapped(s2.cl(c), 0, 0) =~= s2.cl(c));
                                }
                            }
                            Self::lemma_watch_inv_at_same(s2, *self, q as int, k0 + rest);
                        }
                        assert(self.cl(cref as int)[0] == other);
                        assert(self.cl(cref as int)[1] == np);
                        assert forall|m: int| 1 <= m < self.cl(cref as int).len() implies self.is_false(#[trigger] self.cl(cref as int)[m]) by {
                            if m >= 2 {
                                assert(self.cl(cref as int)[m] == s2.cl(cref as int)[m]);
                            }
                        }
                    }
                    if other_val == Some(false) {
                        conflict = Some(cref);
                        let ghost pend_c = kept@ + ws@.subrange(i as int, ws@.len() as int);
                        proof {
                            Self::lemma_extends_trans(s1, s2, *self);
                        assert(self.assigns@[p.spec_var() as int] == s1.assigns@[p.spec_var() as int]);
                            assert forall|m: int| 0 <= m < self.cl(cref as int).len() implies self.is_false(#[trigger] self.cl(cref as int)[m]) by {
                                if m >= 1 {
                                    assert(self.is_false(self.cl(cref as int)[m]));
                                }
                            }
                            if self.cur() > 0 {
                                assert(self.lv(self.cl(cref as int)[1].spec_var() as int) == self.cur());
                            }
                        }
                        while i < ws.len()
                            invariant
                                i <= ws@.len(),
                                kept@ + ws@.subrange(i as int, ws@.len() as int) == pend_c,
                                forall|kk: int| 0 <= kk < ws@.len() ==> watch_ok(#[trigger] ws@[kk], self.n_vars as int, self.clauses@.len() as int),
                                forall|kk: int| 0 <= kk < kept@.len() ==> watch_ok(#[trigger] kept@[kk], self.n_vars as int, self.clauses@.len() as int),
                            decreases ws@.len() - i,
                        {
                            proof {
                                let r2 = ws@.subrange(i as int, ws@.len() as int);
                                assert(r2[0] == ws@[i as int]);
                                assert(kept@.push(ws@[i as int]) + ws@.subrange(i + 1, ws@.len() as int) =~= kept@ + r2);
                            }
                            kept.push(ws[i]);
                            i += 1;
                        }
                        proof {
                            assert(kept@ + ws@.subrange(i as int, ws@.len() as int) =~= kept@);
                        }
                    } else {
                        let ghost s3 = *self;
                        let _ok = self.enqueue(other, Some(cref));
                        proof {
                            Self::lemma_visit_extend(s3, *self, q as int, k0 + rest);
                            let jl = self.trail@.len() - 1;
                            assert(self.trail@[jl] == other);
                            assert(self.tv(jl) == other.spec_var());
                            let lu = self.lv(other.spec_var() as int);
                            if lu < self.cur() {
                                assert(self.trail_lim@[lu] < self.trail@.len());
                                assert(false);
                            }
                            assert(self.cl(cref as int)[0] == other);
                            assert(self.is_true(other));
                            assert(self.covered(cref as int, np));
                            Self::lemma_pending_next(sa, *self, np, ws@, i0, cref as int);
                            Self::lemma_extends_trans(s2, s3, *self);
                            Self::lemma_extends_trans(s1, s2, *self);
                        assert(self.assigns@[p.spec_var() as int] == s1.assigns@[p.spec_var() as int]);
                            assert forall|kk: int| 0 <= kk < kept@.len() implies watch_ok(#[trigger] kept@[kk], self.n_vars as int, self.clauses@.len() as int) by {
                                assert(watch_ok(kept@[kk], s3.n_vars as int, s3.clauses@.len() as int));
                            }
                        }
                    }
                }
            }
            let ghost s4 = *self;
            let ghost kept_v = kept@;
            proof {
                assert(kept@ + ws@.subrange(i as int, ws@.len() as int) =~= kept@) by {
                    assert(i == ws@.len());
                }
            }
            self.watches.set(q, kept);
            proof {
                Self::lemma_visit_exit(s4, *self, q as int, kept_v);
                assert forall|ii: int, k: int| 0 <= ii < 2 * self.n_vars && 0 <= k < self.watches@[ii]@.len()
                    implies watch_ok(#[trigger] self.watches@[ii]@[k], self.n_vars as int, self.clauses@.len() as int) by {
                    if ii != q {
                        assert(self.watches@[ii] == s4.watches@[ii]);
                    }
                }
                assert(self.inv_shape());
                assert(s4.trail@ =~= self.trail@.subrange(0, s4.trail@.len() as int));
                assert(self.extends(s4));
                Self::lemma_extends_trans(s1, s4, *self);
                Self::lemma_extends_trans(s0, s1, *self);
            }
            if let Some(cr) = conflict {
                proof {
                    Self::lemma_conflicting_same(s4, *self, cr as int);
                }
                return Some(cr);
            }
            let ghost s5 = *self;
            self.qhead = self.qhead + 1;
            proof {
                Self::lemma_visit_advance(s5, *self, np);
                assert(s5.trail@ =~= self.trail@.subrange(0, s5.trail@.len() as int));
                assert(self.extends(s5));
                Self::lemma_extends_trans(s0, s5, *self);
                assert(self.inv_trail());
            }
        }
        proof {
            self.lemma_complete();
        }
        None
    }

    /// Mark the variables of the literals `start..` of clause `c` that are
    /// assigned above level 0 and not yet marked: count those of the current
    /// level, and collect the literals of the lower levels in `out`.
    #[verifier::spinoff_prover]
    #[verifier::rlimit(60)]
    fn mark_clause(&self, c: usize, start: usize, q: i32, seen: &mut Vec<bool>, out: &mut Vec<Lit>,
        bumped: &mut Vec<Var>, path_c: &mut i32, bt: &mut i32)
        requires
            self.wf(),
            self.cur() > 0,
            c < self.clauses@.len(),
            start <= self.cl(c as int).len(),
            -1 <= q < self.trail@.len(),
            self.marks_ok(old(seen)@, old(out)@, *old(bt) as int),
            *old(path_c) == cnt(self.trail@, old(seen)@, self.level@, self.cur(), q as int),
            forall|kk: int| start <= kk < self.cl(c as int).len() ==> {
                &&& self.is_false(#[trigger] self.cl(c as int)[kk])
                &&& self.pos@[self.cl(c as int)[kk].spec_var() as int] <= q
            },
            forall|kk: int| 0 <= kk < old(bumped)@.len() ==> #[trigger] old(bumped)@[kk] < self.n_vars,
        ensures
            self.marks_ok(final(seen)@, final(out)@, *final(bt) as int),
            *final(path_c) == cnt(self.trail@, final(seen)@, self.level@, self.cur(), q as int),
            *final(path_c) >= *old(path_c),
            forall|kk: int| start <= kk < self.cl(c as int).len()
                ==> self.lv((#[trigger] self.cl(c as int)[kk]).spec_var() as int) == 0 || final(seen)@[self.cl(c as int)[kk].spec_var() as int],
            forall|v: int| 0 <= v < self.n_vars && #[trigger] old(seen)@[v] ==> final(seen)@[v],
            old(out)@.len() <= final(out)@.len(),
            forall|m: int| 0 <= m < old(out)@.len() ==> #[trigger] final(out)@[m] == old(out)@[m],
            forall|kk: int| 0 <= kk < final(bumped)@.len() ==> #[trigger] final(bumped)@[kk] < self.n_vars,
    {
        let ghost seen0 = seen@;
        let ghost out0 = out@;
        let ghost pc0 = *path_c;
        let ghost r = self.cl(c as int);
        let dl = self.decision_level();
        let len = self.clauses[c].lits.len();
        let mut k: usize = start;
        proof { lemma_cnt_bounds(self.trail@, seen@, self.level@, self.cur(), q as int); }
        while k < len
            invariant
                self.wf(),
                dl == self.cur(),
                self.cur() > 0,
                c < self.clauses@.len(),
                r == self.cl(c as int),
                len == r.len(),
                start <= k <= len,
                -1 <= q < self.trail@.len(),
                self.marks_ok(seen@, out@, *bt as int),
                *path_c == cnt(self.trail@, seen@, self.level@, self.cur(), q as int),
                0 <= *path_c <= q + 1,
                *path_c >= pc0,
                forall|kk: int| start <= kk < len ==> {
                    &&& self.is_false(#[trigger] r[kk])
                    &&& self.pos@[r[kk].spec_var() as int] <= q
                },
                forall|kk: int| start <= kk < k ==> self.lv((#[trigger] r[kk]).spec_var() as int) == 0 || seen@[r[kk].spec_var() as int],
                forall|v: int| 0 <= v < self.n_vars && #[trigger] seen0[v] ==> seen@[v],
                out0.len() <= out@.len(),
                forall|m: int| 0 <= m < out0.len() ==> #[trigger] out@[m] == out0[m],
                forall|kk: int| 0 <= kk < bumped@.len() ==> #[trigger] bumped@[kk] < self.n_vars,
            decreases len - k,
        {
            let qlit = self.clauses[c].lits[k];
            let x = qlit.var() as usize;
            proof {
                assert(self.is_false(r[k as int]));
                assert(self.assigned(x as int));
            }
            if !seen[x] && self.level[x] > 0 {
                let ghost sb = seen@;
                let ghost ob = out@;
                bumped.push(x as Var);
                seen.set(x, true);
                proof {
                    assert forall|j: int| 0 <= j < self.trail@.len() implies self.pos@[(#[trigger] self.trail@[j]).spec_var() as int] == j && self.trail@[j].spec_var() < sb.len() by {}
                    assert(self.tv(self.pos@[x as int]) == x as int);
                    lemma_cnt_mark(self.trail@, self.pos@, sb, self.level@, self.cur(), q as int, x as int);
                    lemma_cnt_bounds(self.trail@, seen@, self.level@, self.cur(), q as int);
                }
                if self.level[x] >= dl {
                    *path_c = *path_c + 1;
                    proof {
                        assert forall|v: int| 0 <= v < self.n_vars && #[trigger] seen@[v] && self.lv(v) < self.cur()
                            implies exists|m: int| 0 <= m < out@.len() && (#[trigger] out@[m]).spec_var() == v by {
                            assert(v != x as int);
                            assert(sb[v]);
                        }
                        assert forall|m: int| 0 <= m < out@.len() implies seen@[(#[trigger] out@[m]).spec_var() as int] by {
                            assert(sb[out@[m].spec_var() as int]);
                        }
                        assert(self.marks_ok(seen@, out@, *bt as int));
                    }
                } else {
                    proof {
                        assert(qlit.spec_var() == x as int);
                        assert forall|m: int| 0 <= m < ob.len() implies ob[m] != qlit by {
                            assert(sb[ob[m].spec_var() as int]);
                        }
                    }
                    out.push(qlit);
                    if self.level[x] > *bt {
                        *bt = self.level[x];
                    }
                    proof {
                        assert forall|v: int| 0 <= v < self.n_vars && #[trigger] seen@[v] && self.lv(v) < self.cur()
                            implies exists|m: int| 0 <= m < out@.len() && (#[trigger] out@[m]).spec_var() == v by {
                            if v == x as int {
                                assert(out@[out@.len() - 1] == qlit);
                            } else {
                                assert(sb[v]);
                                let m = choose|m: int| 0 <= m < ob.len() && (#[trigger] ob[m]).spec_var() == v;
                                assert(out@[m] == ob[m]);
                            }
                        }
                        assert forall|m: int| 0 <= m < out@.len() implies {
                            &&& (#[trigger] out@[m]).spec_var() < self.n_vars
                            &&& self.is_false(out@[m])
                            &&& seen@[out@[m].spec_var() as int]
                            &&& 0 < self.lv(out@[m].spec_var() as int) < self.cur()
                            &&& self.lv(out@[m].spec_var() as int) <= *bt
                        } by {
                            if m < ob.len() {
                                assert(out@[m] == ob[m]);
                            }
                        }
                        assert forall|i1: int, j1: int| 0 <= i1 < j1 < out@.len() implies #[trigger] out@[i1] != #[trigger] out@[j1] by {
                            assert(out@[i1] == ob[i1]);
                            if j1 < ob.len() {
                                assert(out@[j1] == ob[j1]);
                            }
                        }
                        assert(self.marks_ok(seen@, out@, *bt as int));
                    }
                }
                proof {
                    assert forall|m: int| 0 <= m < out0.len() implies #[trigger] out@[m] == out0[m] by {
                        assert(ob[m] == out0[m]);
                    }
                }
            }
            k += 1;
        }
    }

    /// After marking the clause `r` (from `start`), every model that makes
    /// `out` false disagrees with the trail on a marked current-level
    /// variable at a position `<= q`.
    proof fn lemma_after_mark(self, seen0: Seq<bool>, out0: Seq<Lit>, seen: Seq<bool>, out: Seq<Lit>, bt: int, r: Seq<Lit>, start: int, q: int)
        requires
            self.wf(),
            self.cur() > 0,
            self.marks_ok(seen, out, bt),
            start == 0 || start == 1,
            start <= r.len(),
            implied(self.formula@, self.n_vars as nat, r),
            forall|k: int| start <= k < r.len() ==> {
                &&& (#[trigger] r[k]).spec_var() < self.n_vars
                &&& self.is_false(r[k])
                &&& (self.lv(r[k].spec_var() as int) == 0 || seen[r[k].spec_var() as int])
                &&& self.pos@[r[k].spec_var() as int] <= q
            },
            -1 <= q < self.trail@.len(),
            forall|v: int| 0 <= v < self.n_vars && #[trigger] seen0[v] ==> seen[v],
            out0.len() <= out.len(),
            forall|m: int| 0 <= m < out0.len() ==> #[trigger] out[m] == out0[m],
            start == 1 ==> {
                &&& q + 1 < self.trail@.len()
                &&& r[0] == self.trail@[q + 1]
                &&& self.witnessed(seen0, out0, q + 1)
            },
        ensures
            self.witnessed(seen, out, q),
    {
        let cur = self.cur();
        assert forall|a: Seq<bool>| #[trigger] models(self.formula@, self.n_vars as nat, a)
            && (forall|m: int| 0 <= m < out.len() ==> !lit_true(#[trigger] out[m], a))
            implies exists|j: int| 0 <= j <= q && seen[self.tv(j)] && self.lv(self.tv(j)) == cur && !lit_true(#[trigger] self.trail@[j], a) by {
            if start == 1 && lit_true(r[0], a) {
                assert forall|m: int| 0 <= m < out0.len() implies !lit_true(#[trigger] out0[m], a) by {
                    assert(out[m] == out0[m]);
                }
                let j = choose|j: int| 0 <= j <= q + 1 && seen0[self.tv(j)] && self.lv(self.tv(j)) == cur && !lit_true(#[trigger] self.trail@[j], a);
                assert(j != q + 1);
                assert(seen[self.tv(j)]);
            } else {
                self.lemma_clause_witness(seen, out, bt, r, start, q, a);
            }
        }
    }

    /// A learned clause fit for backjumping: implied by the formula, all of
    /// its literals false, the first one of the current level, the others of
    /// lower levels above 0, the second one of the highest of those, which
    /// is the level `bt` to backjump to (0 for a unit clause).
    spec fn learnt_ok(self, l: Seq<Lit>, bt: int) -> bool {
        &&& l.len() >= 1
        &&& implied(self.formula@, self.n_vars as nat, l)
        &&& forall|k: int| 0 <= k < l.len() ==> (#[trigger] l[k]).spec_var() < self.n_vars && self.is_false(l[k])
        &&& self.lv(l[0].spec_var() as int) == self.cur()
        &&& forall|k: int| 1 <= k < l.len() ==> 0 < self.lv((#[trigger] l[k]).spec_var() as int) <= bt
        &&& l.len() > 1 ==> self.lv(l[1].spec_var() as int) == bt
        &&& l.len() == 1 ==> bt == 0
        &&& 0 <= bt < self.cur()
        &&& lits_distinct(l)
    }

    /// Put the negation of the last current-level literal `p` in front of
    /// the lower-level literals `out`, and move a literal of the highest of
    /// their levels to the second place.
    #[verifier::spinoff_prover]
    fn finish_learnt(&self, p: Lit, out: Vec<Lit>, out_btlevel: i32) -> (res: (Vec<Lit>, i32))
        requires
            self.wf(),
            self.cur() > 0,
            forall|m: int| 0 <= m < out@.len() ==> {
                &&& (#[trigger] out@[m]).spec_var() < self.n_vars
                &&& self.is_false(out@[m])
                &&& 0 < self.lv(out@[m].spec_var() as int) < self.cur()
                &&& self.lv(out@[m].spec_var() as int) <= out_btlevel
            },
            out@.len() == 0 ==> out_btlevel == 0,
            0 <= out_btlevel < self.cur(),
            lits_distinct(out@),
            p.spec_var() < self.n_vars,
            self.is_true(p),
            self.lv(p.spec_var() as int) == self.cur(),
            forall|a: Seq<bool>| #[trigger] models(self.formula@, self.n_vars as nat, a)
                && (forall|m: int| 0 <= m < out@.len() ==> !lit_true(#[trigger] out@[m], a))
                ==> !lit_true(p, a),
        ensures
            self.learnt_ok(res.0@, res.1 as int),
    {
        let np = p.neg();
        proof { lemma_neg(p); }
        let ghost o = out@;
        let mut learnt = out;
        learnt.insert(0, np);
        proof {
            assert forall|a: Seq<bool>| #[trigger] models(self.formula@, self.n_vars as nat, a) implies clause_sat(learnt@, a) by {
                if !lit_true(np, a) {
                    assert(lit_true(p, a));
                    assert(!(forall|m: int| 0 <= m < o.len() ==> !lit_true(#[trigger] o[m], a)));
                    let m = choose|m: int| 0 <= m < o.len() && lit_true(#[trigger] o[m], a);
                    assert(learnt@[m + 1] == o[m]);
                } else {
                    assert(learnt@[0] == np);
                }
            }
            assert forall|k: int| 1 <= k < learnt@.len() implies 0 < self.lv((#[trigger] learnt@[k]).spec_var() as int) <= out_btlevel by {
                assert(learnt@[k] == o[k - 1]);
            }
            assert forall|k: int| 0 <= k < learnt@.len() implies (#[trigger] learnt@[k]).spec_var() < self.n_vars && self.is_false(learnt@[k]) by {
                if k > 0 {
                    assert(learnt@[k] == o[k - 1]);
                }
            }
            assert forall|i1: int, j1: int| 0 <= i1 < j1 < learnt@.len() implies #[trigger] learnt@[i1] != #[trigger] learnt@[j1] by {
                assert(learnt@[j1] == o[j1 - 1]);
                if i1 > 0 {
                    assert(learnt@[i1] == o[i1 - 1]);
                    assert(o[i1 - 1] != o[j1 - 1]);
                } else {
                    assert(self.lv(o[j1 - 1].spec_var() as int) < self.cur());
                }
            }
        }
        let bt = self.order_learnt(&mut learnt, out_btlevel);
        (learnt, bt)
    }

    /// Move a literal of the highest level among `learnt[1..]` to the second
    /// place, and return that level (the given `bt0` for a unit clause).
    #[verifier::spinoff_prover]
    fn order_learnt(&self, learnt: &mut Vec<Lit>, bt0: i32) -> (bt: i32)
        requires
            self.level@.len() == self.n_vars,
            self.cur() > 0,
            old(learnt)@.len() >= 1,
            implied(self.formula@, self.n_vars as nat, old(learnt)@),
            forall|k: int| 0 <= k < old(learnt)@.len() ==> (#[trigger] old(learnt)@[k]).spec_var() < self.n_vars && self.is_false(old(learnt)@[k]),
            self.lv(old(learnt)@[0].spec_var() as int) == self.cur(),
            forall|k: int| 1 <= k < old(learnt)@.len() ==> 0 < self.lv((#[trigger] old(learnt)@[k]).spec_var() as int) <= bt0,
            old(learnt)@.len() == 1 ==> bt0 == 0,
            0 <= bt0 < self.cur(),
            lits_distinct(old(learnt)@),
        ensures
            self.learnt_ok(final(learnt)@, bt as int),
    {
        if learnt.len() <= 1 {
            return bt0;
        }
        let ghost l0 = learnt@;
        let mut max_i: usize = 1;
        let mut i: usize = 1;
        while i < learnt.len()
            invariant
                self.level@.len() == self.n_vars,
                learnt@ == l0,
                1 <= max_i < l0.len(),
                1 <= i <= l0.len(),
                forall|kk: int| 0 <= kk < l0.len() ==> (#[trigger] l0[kk]).spec_var() < self.n_vars,
                forall|m: int| 1 <= m < i ==> self.lv((#[trigger] l0[m]).spec_var() as int) <= self.lv(l0[max_i as int].spec_var() as int),
            decreases l0.len() - i,
        {
            if self.level[learnt[i].var() as usize] > self.level[learnt[max_i].var() as usize] {
                max_i = i;
            }
            i += 1;
        }
        let a1 = learnt[max_i];
        let b1 = learnt[1];
        learnt.set(1, a1);
        learnt.set(max_i, b1);
        let bt = self.level[learnt[1].var() as usize];
        proof {
            lemma_swapped(l0, 1, max_i as int);
            assert(learnt@ =~= swapped(l0, 1, max_i as int));
            let l = learnt@;
            assert forall|a: Seq<bool>| #[trigger] models(self.formula@, self.n_vars as nat, a) implies clause_sat(l, a) by {
                assert(clause_sat(l0, a));
            }
            assert forall|k: int| 0 <= k < l.len() implies (#[trigger] l[k]).spec_var() < self.n_vars && self.is_false(l[k]) by {
                let m = if k == 1 { max_i as int } else if k == max_i { 1int } else { k };
                assert(l[k] == l0[m]);
            }
            assert forall|k: int| 1 <= k < l.len() implies 0 < self.lv((#[trigger] l[k]).spec_var() as int) <= bt by {
                let m = if k == 1 { max_i as int } else if k == max_i { 1int } else { k };
                assert(l[k] == l0[m]);
            }
            assert(l[0] == l0[0]);
            lemma_distinct_swap(l0, 1, max_i as int);
            assert(bt < self.cur()) by {
                assert(self.lv(l0[max_i as int].spec_var() as int) <= bt0);
            }
        }
        bt
    }

    /// First-UIP conflict analysis: resolve the conflicting clause with the
    /// reasons of the current level's literals, latest first, until one
    /// literal of the current level is left.  Returns the learned clause
    /// (its first literal the negation of that literal, its second one of
    /// the highest remaining level), the level to backjump to, and the
    /// variables met on the way.
    #[verifier::spinoff_prover]
    #[verifier::rlimit(100)]
    fn analyze(&self, confl: usize) -> (res: (Vec<Lit>, i32, Vec<Var>))
        requires
            self.wf(),
            self.cur() > 0,
            self.conflicting(confl as int),
        ensures
            self.learnt_ok(res.0@, res.1 as int),
            forall|k: int| 0 <= k < res.2@.len() ==> #[trigger] res.2@[k] < self.n_vars,
    {
        let n = self.n_vars;
        let mut seen: Vec<bool> = Vec::new();
        while seen.len() < n
            invariant
                seen@.len() <= n,
                forall|v: int| 0 <= v < seen@.len() ==> !#[trigger] seen@[v],
            decreases n - seen@.len(),
        {
            seen.push(false);
        }
        let mut out_learnt: Vec<Lit> = Vec::new();
        let mut bumped: Vec<Var> = Vec::new();
        let mut path_c: i32 = 0;
        let mut q: i32 = self.trail.len() as i32 - 1;
        let mut out_btlevel: i32 = 0;
        let mut c: usize = confl;
        let mut start: usize = 0;
        let mut p: Lit = self.trail[0];
        proof {
            assert(self.trail_lim@[0] < self.trail@.len());
            lemma_cnt_bounds(self.trail@, seen@, self.level@, self.cur(), q as int);
            assert(cnt(self.trail@, seen@, self.level@, self.cur(), q as int) == 0) by {
                if cnt(self.trail@, seen@, self.level@, self.cur(), q as int) > 0 {
                    let j = choose|j: int| 0 <= j <= q && #[trigger] seen@[self.trail@[j].spec_var() as int] && self.level@[self.trail@[j].spec_var() as int] == self.cur();
                }
            }
            let cc = self.cl(confl as int);
            assert forall|k: int| 0 <= k < cc.len() implies self.pos@[(#[trigger] cc[k]).spec_var() as int] <= q by {
                assert(self.assigned(cc[k].spec_var() as int));
            }
        }
        loop
            invariant_except_break
                self.wf(),
                self.cur() > 0,
                self.marks_ok(seen@, out_learnt@, out_btlevel as int),
                c < self.clauses@.len(),
                start == 0 || start == 1,
                -1 <= q < self.trail@.len(),
                path_c == cnt(self.trail@, seen@, self.level@, self.cur(), q as int),
                forall|k: int| start <= k < self.cl(c as int).len() ==> {
                    &&& self.is_false(#[trigger] self.cl(c as int)[k])
                    &&& self.pos@[self.cl(c as int)[k].spec_var() as int] <= q
                },
                start == 0 ==> {
                    &&& self.conflicting(c as int)
                    &&& out_learnt@.len() == 0
                },
                start == 1 ==> {
                    &&& path_c >= 1
                    &&& self.cl(c as int).len() >= 1
                    &&& q + 1 < self.trail@.len()
                    &&& self.cl(c as int)[0] == self.trail@[q + 1]
                    &&& self.witnessed(seen@, out_learnt@, q + 1)
                },
                forall|k: int| 0 <= k < bumped@.len() ==> #[trigger] bumped@[k] < self.n_vars,
            ensures
                self.marks_ok(seen@, out_learnt@, out_btlevel as int),
                p.spec_var() < self.n_vars,
                self.is_true(p),
                self.lv(p.spec_var() as int) == self.cur(),
                forall|a: Seq<bool>| #[trigger] models(self.formula@, self.n_vars as nat, a)
                    && (forall|m: int| 0 <= m < out_learnt@.len() ==> !lit_true(#[trigger] out_learnt@[m], a))
                    ==> !lit_true(p, a),
                forall|k: int| 0 <= k < bumped@.len() ==> #[trigger] bumped@[k] < self.n_vars,
            decreases q + 1,
        {
            let ghost seen0 = seen@;
            let ghost out0 = out_learnt@;
            let ghost r = self.cl(c as int);
            let ghost qh = q as int;
            let ghost pc0 = path_c as int;
            self.mark_clause(c, start, q, &mut seen, &mut out_learnt, &mut bumped, &mut path_c, &mut out_btlevel);
            proof {
                let cur = self.cur();
                if start == 0 {
                    assert(r.len() >= 1) by {
                        let kc = choose|kk: int| 0 <= kk < r.len() && self.lv((#[trigger] r[kk]).spec_var() as int) == cur;
                    }
                } else {
                    assert(r.len() >= 1);
                }
                self.lemma_after_mark(seen0, out0, seen@, out_learnt@, out_btlevel as int, r, start as int, q as int);
                if start == 0 {
                    let kc = choose|kk: int| 0 <= kk < r.len() && self.lv((#[trigger] r[kk]).spec_var() as int) == cur;
                    let xv = r[kc].spec_var() as int;
                    let jc = self.pos@[xv];
                    assert(self.assigned(xv));
                    assert(self.tv(jc) == xv);
                    assert(seen@[xv]);
                    lemma_cnt_bounds(self.trail@, seen@, self.level@, cur, q as int);
                    assert(seen@[self.trail@[jc].spec_var() as int] && self.level@[self.trail@[jc].spec_var() as int] == cur);
                }
                assert(path_c >= 1);
            }
            while q >= 0 && !seen[self.trail[q as usize].var() as usize]
                invariant
                    self.wf(),
                    self.cur() > 0,
                    -1 <= q <= qh,
                    qh < self.trail@.len(),
                    path_c == cnt(self.trail@, seen@, self.level@, self.cur(), q as int),
                    path_c >= 1,
                    seen@.len() == self.n_vars,
                    self.witnessed(seen@, out_learnt@, q as int),
                decreases q + 1,
            {
                proof {
                    assert(self.tv(q as int) < self.n_vars);
                }
                q -= 1;
                proof {
                    let cur = self.cur();
                    assert forall|a: Seq<bool>| #[trigger] models(self.formula@, self.n_vars as nat, a)
                        && (forall|m: int| 0 <= m < out_learnt@.len() ==> !lit_true(#[trigger] out_learnt@[m], a))
                        implies exists|j: int| 0 <= j <= q && seen@[self.tv(j)] && self.lv(self.tv(j)) == cur && !lit_true(#[trigger] self.trail@[j], a) by {
                        let j = choose|j: int| 0 <= j <= q + 1 && seen@[self.tv(j)] && self.lv(self.tv(j)) == cur && !lit_true(#[trigger] self.trail@[j], a);
                        assert(j != q + 1);
                    }
                }
            }
            proof {
                lemma_cnt_bounds(self.trail@, seen@, self.level@, self.cur(), q as int);
            }
            let ghost qo = q as int;
            p = self.trail[q as usize];
            proof {
                let cur = self.cur();
                let j0 = choose|j: int| 0 <= j <= qo && #[trigger] seen@[self.trail@[j].spec_var() as int] && self.level@[self.trail@[j].spec_var() as int] == cur;
                assert(self.trail_lim@[cur - 1] <= j0);
                let lp = self.lv(p.spec_var() as int);
                if lp < cur {
                    assert(self.trail_lim@[lp] <= self.trail_lim@[cur - 1]);
                }
                assert(lp == cur);
            }
            q -= 1;
            path_c -= 1;
            proof {
                assert(self.tv(qo) < self.n_vars);
                lemma_cnt_bounds(self.trail@, seen@, self.level@, self.cur(), q as int);
            }
            if path_c <= 0 {
                proof {
                    let cur = self.cur();
                    assert forall|a: Seq<bool>| #[trigger] models(self.formula@, self.n_vars as nat, a)
                        && (forall|m: int| 0 <= m < out_learnt@.len() ==> !lit_true(#[trigger] out_learnt@[m], a))
                        implies !lit_true(p, a) by {
                        let j = choose|j: int| 0 <= j <= qo && seen@[self.tv(j)] && self.lv(self.tv(j)) == cur && !lit_true(#[trigger] self.trail@[j], a);
                        if j < qo {
                            assert(seen@[self.trail@[j].spec_var() as int] && self.level@[self.trail@[j].spec_var() as int] == cur);
                        }
                    }
                }
                break;
            }
            let pv = p.var() as usize;
            proof {
                let cur = self.cur();
                let j1 = choose|j: int| 0 <= j <= q && #[trigger] seen@[self.trail@[j].spec_var() as int] && self.level@[self.trail@[j].spec_var() as int] == cur;
                assert(self.trail_lim@[cur - 1] <= j1);
                assert(self.pos@[pv as int] == qo);
                assert(self.reason_ok(pv as int));
            }
            c = match self.reason[pv] {
                Some(rc) => rc,
                None => {
                    proof { assert(false); }
                    0
                },
            };
            start = 1;
            proof {
                assert(self.reason_ok(pv as int));
                assert(self.cl(c as int)[0] == self.trail@[q + 1]);
            }
        }
        let (learnt, bt) = self.finish_learnt(p, out_learnt, out_btlevel);
        (learnt, bt, bumped)
    }

    /// Store a learned clause, watch its first two literals, and assign its
    /// first literal with the clause as reason.
    #[verifier::spinoff_prover]
    #[verifier::rlimit(60)]
    fn add_learnt(&mut self, learnt: Vec<Lit>)
        requires
            old(self).wf(),
            learnt@.len() >= 1,
            implied(old(self).formula@, old(self).n_vars as nat, learnt@),
            forall|k: int| 0 <= k < learnt@.len() ==> (#[trigger] learnt@[k]).spec_var() < old(self).n_vars,
            !old(self).assigned(learnt@[0].spec_var() as int),
            forall|k: int| 1 <= k < learnt@.len() ==> old(self).is_false(#[trigger] learnt@[k]),
            learnt@.len() == 1 ==> old(self).cur() == 0,
            lits_distinct(learnt@),
            learnt@.len() >= 2 ==> old(self).lv(learnt@[1].spec_var() as int) == old(self).cur(),
        ensures
            final(self).wf(),
            final(self).extends(*old(self)),
            final(self).qhead == old(self).qhead,
            final(self).trail@ == old(self).trail@.push(learnt@[0]),
    {
        let ghost s0 = *self;
        let ghost lits = learnt@;
        let idx = self.clauses.len();
        let l0 = learnt[0];
        let has_second = learnt.len() > 1;
        let l1 = if has_second { learnt[1] } else { l0 };
        self.clauses.push(Clause { lits: learnt, learnt: true });
        proof {
            lemma_lit_code(l0);
            lemma_lit_code(l1);
            assert(self.cl(idx as int) == lits);
            assert forall|c: int| 0 <= c < s0.clauses@.len() implies #[trigger] self.clauses@[c] == s0.clauses@[c] by {}
            assert forall|c: int, k: int| 0 <= c < self.clauses@.len() && 0 <= k < self.clauses@[c].lits@.len()
                implies (#[trigger] self.clauses@[c].lits@[k]).spec_var() < self.n_vars by {
                if c < idx {
                    assert(self.clauses@[c] == s0.clauses@[c]);
                }
            }
            assert forall|c: int| 0 <= c < self.clauses@.len() implies (#[trigger] self.clauses@[c].lits@).len() >= 1 by {
                if c < idx {
                    assert(self.clauses@[c] == s0.clauses@[c]);
                }
            }
            assert forall|ii: int, w: int| 0 <= ii < 2 * self.n_vars && 0 <= w < self.watches@[ii]@.len()
                implies watch_ok(#[trigger] self.watches@[ii]@[w], self.n_vars as int, self.clauses@.len() as int) by {
                assert(watch_ok(s0.watches@[ii]@[w], s0.n_vars as int, s0.clauses@.len() as int));
            }
            assert(self.inv_shape());
            assert forall|u: int| 0 <= u < self.n_vars implies #[trigger] self.reason_ok(u) by {
                assert(s0.reason_ok(u));
                if let Some(c) = self.reason@[u] {
                    assert(self.clauses@[c as int] == s0.clauses@[c as int]);
                }
            }
            assert forall|c: int| 0 <= c < self.clauses@.len() implies implied(self.formula@, self.n_vars as nat, #[trigger] self.clauses@[c].lits@) by {
                if c < idx {
                    assert(self.clauses@[c] == s0.clauses@[c]);
                }
            }
            assert(self.inv_implied());
            assert(s0.trail@ =~= self.trail@.subrange(0, s0.trail@.len() as int));
            assert(self.extends(s0));
        }
        let ghost s1 = *self;
        let b0 = if has_second { l1 } else { l0 };
        self.push_watch(l0.index(), Watcher { cref: idx, blocker: b0 });
        if has_second {
            self.push_watch(l1.index(), Watcher { cref: idx, blocker: l0 });
        }
        let ghost s2 = *self;
        proof {
            assert(s2.extends(s1)) by {
                assert(s1.trail@ =~= s2.trail@.subrange(0, s1.trail@.len() as int));
            }
            Self::lemma_extends_trans(s0, s1, s2);
            assert(self.cl(idx as int) == lits);
        }
        let _ok = self.enqueue(l0, Some(idx));
        proof {
            Self::lemma_extends_trans(s0, s2, *self);
            let v0 = l0.spec_var() as int;
            let jl = self.trail@.len() - 1;
            assert(self.trail@[jl] == l0);
            assert(self.tv(jl) == v0);
            let lu = self.lv(v0);
            if lu < self.cur() {
                assert(self.trail_lim@[lu] < self.trail@.len());
                assert(false);
            }
            assert(lu == self.cur());
            assert(self.is_true(l0));
            assert forall|c: int| 0 <= c < s0.clauses@.len() implies #[trigger] self.cl(c) == s0.cl(c) by {
                assert(self.clauses@[c] == s0.clauses@[c]);
            }
            let q0 = l0.code() as int;
            let q1 = l1.code() as int;
            assert forall|i: int, w: int| 0 <= i < 2 * s0.n_vars && 0 <= w < s0.watches@[i]@.len()
                implies w < self.watches@[i]@.len() && #[trigger] self.watches@[i]@[w] == s0.watches@[i]@[w] by {
                assert(s1.watches@[i] == s0.watches@[i]);
            }
            assert forall|i: int, w: int| 0 <= i < 2 * s0.n_vars && s0.watches@[i]@.len() <= w < self.watches@[i]@.len()
                implies self.cl((#[trigger] self.watches@[i]@[w]).cref as int).contains(self.watches@[i]@[w].blocker) by {
                assert(s1.watches@[i] == s0.watches@[i]);
                assert(self.watches@[i]@[w].cref == idx);
                assert(self.cl(idx as int) == lits);
                if self.watches@[i]@[w].blocker == l0 {
                    assert(lits[0] == l0);
                } else {
                    assert(lits[1] == l1);
                }
            }
            if lits.len() >= 2 {
                assert(self.watches@[q0]@[s0.watches@[q0]@.len() as int].cref == idx);
                let wl1 = self.watches@[q1]@.len() - 1;
                assert(self.watches@[q1]@[wl1].cref == idx);
                assert(self.watched_in(idx as int, self.cl(idx as int)[0]));
                assert(self.watched_in(idx as int, self.cl(idx as int)[1]));
                assert(lits[0] != lits[1]) by {
                    assert(s0.is_false(lits[1]));
                }
                assert(self.covered(idx as int, self.cl(idx as int)[1])) by {
                    assert(self.cl(idx as int)[0] == l0);
                    let v1 = l1.spec_var() as int;
                    assert(lits[1] == l1);
                    assert(s0.is_false(lits[1]));
                    assert(s0.assigns@[v1] != 0);
                    assert(self.assigns@[v1] == s0.assigns@[v1]);
                    assert(self.level@[v1] == s0.level@[v1]);
                    assert(self.cur() == s0.cur());
                }
            }
            Self::lemma_watch_inv_grow(s0, *self);
        }
    }

    /// Whether one more round of the search can count a conflict and move the
    /// restart point without overflowing its counters.
    pub open spec fn step_fits(self) -> bool {
        &&& self.conflicts() < i32::MAX
        &&& self.conflicts() + 1 >= self.restart_at() ==> self.restart_at() + self.restart_at() / 2 + 100 <= i32::MAX
    }

    /// Whether [`Solver::step`] can run: its conflict and restart counters
    /// cannot overflow in the next round.
    pub fn can_step(&self) -> (r: bool)
        requires
            self.wf(),
        ensures
            r == self.step_fits(),
    {
        if self.conflict_count == i32::MAX {
            return false;
        }
        if self.conflict_count + 1 >= self.restart_limit {
            (self.restart_limit as i64) + (self.restart_limit as i64) / 2 + 100 <= i32::MAX as i64
        } else {
            true
        }
    }

    /// How many variables are assigned: the length of the trail.
    pub closed spec fn progress(self) -> nat {
        self.trail@.len()
    }

    /// Propagation has consumed the whole trail.
    pub closed spec fn propagated(self) -> bool {
        self.qhead == self.trail@.len()
    }

    /// The value a decision on `v` gives it.
    pub closed spec fn phase(self, v: int) -> bool {
        self.polarity@[v]
    }

    /// Open a new decision level and assign `v` its phase there.  Nothing
    /// happens (and the result is `false`) unless `v` is a variable,
    /// unassigned, and propagation is complete.
    #[verifier::spinoff_prover]
    #[verifier::rlimit(80)]
    pub fn decide(&mut self, v: Var) -> (ok: bool)
        requires
            old(self).wf(),
        ensures
            final(self).wf(),
            final(self).formula() == old(self).formula(),
            final(self).num_vars() == old(self).num_vars(),
            final(self).conflicts() == old(self).conflicts(),
            final(self).restart_at() == old(self).restart_at(),
            ok == (v < old(self).num_vars() && old(self).assignment()[v as int] is None && old(self).propagated()),
            !ok ==> *final(self) == *old(self),
            ok ==> final(self).assignment() == old(self).assignment().update(v as int, Some(old(self).phase(v as int))),
            ok ==> final(self).propagated() == false,
            ok ==> final(self).progress() == old(self).progress() + 1,
    {
        if v as usize >= self.n_vars || self.assigns[v as usize] != 0 || self.qhead != self.trail.len() {
            return false;
        }
        let ghost o = *self;
        let vi = v as usize;
        proof {
            assert forall|jj: int| 0 <= jj < o.trail@.len() implies {
                &&& 0 <= (#[trigger] o.trail@[jj]).spec_var() < o.n_vars
                &&& o.trail@[jj].spec_var() != vi
                &&& o.pos@[o.trail@[jj].spec_var() as int] == jj
            } by {
                assert(o.tv(jj) != vi as int);
            }
            lemma_distinct_vars_len(o.trail@, o.pos@, o.n_vars as int, vi as int);
        }
        let lit = Lit::new(v, !self.polarity[vi]);
        let lvl = self.decision_level() + 1;
        let sign: i8 = if lit.is_neg() { -1 } else { 1 };
        let tlen = self.trail.len();
        self.assigns.set(vi, sign);
        self.level.set(vi, lvl);
        self.reason.set(vi, None);
        self.trail.push(lit);
        self.trail_lim.push(tlen);
        proof {
            let j = tlen as int;
            self.pos@ = self.pos@.update(vi as int, j);
            assert forall|jj: int| 0 <= jj < o.trail@.len() implies {
                &&& 0 <= (#[trigger] o.trail@[jj]).spec_var() < o.n_vars
                &&& o.trail@[jj].spec_var() != vi
                &&& o.pos@[o.trail@[jj].spec_var() as int] == jj
            } by {
                assert(o.tv(jj) != vi as int);
            }
            lemma_distinct_vars_len(o.trail@, o.pos@, o.n_vars as int, vi as int);
            assert forall|u: int| 0 <= u < self.n_vars && #[trigger] self.assigns@[u] == 0
                implies (self.level@[u] == 0 && self.reason@[u] is None) by {
                assert(u != vi);
                assert(o.assigns@[u] == 0);
            }
            assert(self.unassigned_clean());
            assert forall|u: int| 0 <= u < self.n_vars implies -1 <= #[trigger] self.assigns@[u] <= 1 by {
                if u != vi { assert(o.assigns@[u] == self.assigns@[u]); }
            }
            assert(self.inv_shape());
            assert forall|jj: int| #![trigger self.trail@[jj]] 0 <= jj < self.trail@.len() implies {
                &&& 0 <= self.tv(jj) < self.n_vars
                &&& self.is_true(self.trail@[jj])
                &&& self.pos@[self.tv(jj)] == jj
                &&& 0 <= self.lv(self.tv(jj)) <= self.cur()
                &&& self.lstart(self.lv(self.tv(jj))) <= jj < self.lend(self.lv(self.tv(jj)))
            } by {
                if jj < j {
                    assert(self.trail@[jj] == o.trail@[jj]);
                    let u = o.tv(jj);
                    assert(u != vi as int);
                    assert(self.assigns@[u] == o.assigns@[u]);
                    assert(self.level@[u] == o.level@[u]);
                    let lu = o.lv(u);
                    assert(o.lstart(lu) <= jj < o.lend(lu));
                    if lu > 0 {
                        assert(self.trail_lim@[lu - 1] == o.trail_lim@[lu - 1]);
                    }
                    if lu < o.cur() {
                        assert(self.trail_lim@[lu] == o.trail_lim@[lu]);
                    }
                    assert(self.lstart(lu) <= jj < self.lend(lu));
                } else {
                    assert(self.tv(jj) == vi as int);
                    assert(self.trail_lim@[o.cur()] == j);
                }
            }
            assert forall|u: int| 0 <= u < self.n_vars && self.assigned(u)
                implies 0 <= #[trigger] self.pos@[u] < self.trail@.len() && self.tv(self.pos@[u]) == u by {
                if u != vi {
                    assert(o.assigned(u));
                }
            }
            assert forall|k: int| 0 <= k < self.trail_lim@.len() implies k <= #[trigger] self.trail_lim@[k] < self.trail@.len() by {
                if k < o.cur() {
                    assert(self.trail_lim@[k] == o.trail_lim@[k]);
                }
            }
            assert forall|k1: int, k2: int| 0 <= k1 < k2 < self.trail_lim@.len()
                implies #[trigger] self.trail_lim@[k1] < #[trigger] self.trail_lim@[k2] by {
                assert(self.trail_lim@[k1] == o.trail_lim@[k1]);
                if k2 < o.cur() {
                    assert(self.trail_lim@[k2] == o.trail_lim@[k2]);
                }
            }
            assert(self.inv_trail());
            assert forall|u: int| 0 <= u < self.n_vars implies #[trigger] self.reason_ok(u) by {
                assert(o.reason_ok(u));
                if u != vi {
                    match self.reason@[u] {
                        Some(c) => {
                            assert forall|k: int| 1 <= k < self.cl(c as int).len() implies {
                                &&& self.is_false(#[trigger] self.cl(c as int)[k])
                                &&& self.pos@[self.cl(c as int)[k].spec_var() as int] < self.pos@[u]
                            } by {
                                assert(o.is_false(o.cl(c as int)[k]));
                            }
                        },
                        None => {
                            if self.assigned(u) && self.lv(u) > 0 {
                                assert(self.trail_lim@[self.lv(u) - 1] == o.trail_lim@[o.lv(u) - 1]);
                            }
                        },
                    }
                } else {
                    assert(self.trail_lim@[lvl - 1] == j);
                }
            }
            assert(self.inv_reason());
            assert forall|jj: int| 0 <= jj < self.trail@.len() && self.lv(self.tv(jj)) == 0
                implies implied_lit(self.formula@, self.n_vars as nat, #[trigger] self.trail@[jj]) by {
                if jj < j {
                    assert(o.tv(jj) != vi as int);
                    assert(self.trail@[jj] == o.trail@[jj]);
                }
            }
            assert(self.inv_implied());
            assert(self.assignment() =~= o.assignment().update(vi as int, Some(o.phase(vi as int))));
        }
        true
    }

    /// A conflict at level 0 shows that the formula has no model.
    proof fn lemma_level0_conflict(self, c: int)
        requires
            self.wf_core(),
            self.cur() == 0,
            self.conflicting(c),
        ensures
            !satisfiable(self.formula@, self.n_vars as nat),
    {
        let f = self.formula@;
        let n = self.n_vars as nat;
        assert forall|a: Seq<bool>| !models(f, n, a) by {
            if models(f, n, a) {
                let r = self.cl(c);
                assert(implied(f, n, r));
                assert(clause_sat(r, a));
                let k = choose|k: int| 0 <= k < r.len() && lit_true(#[trigger] r[k], a);
                let x = r[k];
                let v = x.spec_var() as int;
                assert(self.assigned(v));
                let j = self.pos@[v];
                assert(self.tv(j) == v);
                self.lemma_false_at_level0(x, a);
            }
        }
    }

    /// Check the total assignment against the kept input formula: `None`
    /// when every clause has a true literal, else a clause whose literals
    /// are all false.
    fn check_input(&self) -> (r: Option<usize>)
        requires
            self.wf(),
            forall|v: int| 0 <= v < self.n_vars ==> #[trigger] self.assigns@[v] != 0,
        ensures
            r is None ==> models(self.formula@, self.n_vars as nat, self.model_of()),
            r matches Some(i) ==> 0 <= i < self.formula@.len()
                && forall|k: int| 0 <= k < self.formula@[i as int].len() ==> self.is_false(#[trigger] self.formula@[i as int][k]),
    {
        let cls = self.input.clauses();
        let ghost f = self.formula@;
        let ghost m = self.model_of();
        let mut i: usize = 0;
        while i < cls.len()
            invariant
                self.wf(),
                f == self.formula@,
                m == self.model_of(),
                cls@.len() == f.len(),
                cls@.map_values(|c: Clause| c.spec_lits()) == f,
                forall|v: int| 0 <= v < self.n_vars ==> #[trigger] self.assigns@[v] != 0,
                0 <= i <= cls@.len(),
                forall|i2: int| 0 <= i2 < i ==> clause_sat(#[trigger] f[i2], m),
            decreases cls@.len() - i,
        {
            let lits = cls[i].lits();
            proof { assert(lits@ == f[i as int]); }
            let mut k: usize = 0;
            let mut sat = false;
            while k < lits.len() && !sat
                invariant
                    self.wf(),
                    f == self.formula@,
                    m == self.model_of(),
                    0 <= i < f.len(),
                    lits@ == f[i as int],
                    forall|v: int| 0 <= v < self.n_vars ==> #[trigger] self.assigns@[v] != 0,
                    0 <= k <= lits@.len(),
                    sat ==> clause_sat(lits@, m),
                    !sat ==> forall|k2: int| 0 <= k2 < k ==> self.is_false(#[trigger] lits@[k2]),
                decreases lits@.len() - k + (if sat { 0int } else { 1int }),
            {
                let l = lits[k];
                proof { assert(l.spec_var() < self.n_vars); }
                if self.lit_value(l) == Some(true) {
                    sat = true;
                    proof {
                        assert(lit_true(l, m));
                        assert(lits@[k as int] == l);
                    }
                } else {
                    k += 1;
                }
            }
            if !sat {
                return Some(i);
            }
            i += 1;
        }
        proof {
            assert(m.len() == self.n_vars);
        }
        None
    }

    /// One round of the search.  Propagate the pending assignments; on a
    /// conflict at level 0 answer `Unsat`; on a conflict above it, learn the
    /// first-UIP clause, backjump, assert its first literal, and restart
    /// (back to level 0, with the next restart point half as far again plus
    /// 100) once the conflict count reaches the restart point; without a
    /// conflict, ask for a decision while a variable is unassigned, and
    /// otherwise answer `Sat` once the assignment is checked against the
    /// formula (a clause found false there is a conflict that propagation
    /// did not report: it answers `Unsat` at level 0, and above it counts a
    /// conflict and restarts the search).
    #[verifier::spinoff_prover]
    #[verifier::rlimit(80)]
    pub fn step(&mut self) -> (r: Step)
        requires
            old(self).wf(),
            old(self).step_fits(),
        ensures
            final(self).wf(),
            final(self).formula() == old(self).formula(),
            final(self).num_vars() == old(self).num_vars(),
            final(self).conflicts() <= old(self).conflicts() + 1,
            r is Unsat ==> !satisfiable(old(self).formula(), old(self).num_vars()),
            r is Sat ==> {
                &&& models(final(self).formula(), final(self).num_vars(), final(self).model_of())
                &&& forall|v: int| 0 <= v < final(self).num_vars() ==> (#[trigger] final(self).assignment()[v]) is Some
            },
            r is Decide ==> final(self).propagated() && exists|v: int| 0 <= v < final(self).num_vars() && (#[trigger] final(self).assignment()[v]) is None,
            r matches Step::Learned(vs) ==> forall|k: int| 0 <= k < vs@.len() ==> #[trigger] vs@[k] < final(self).num_vars(),
            r is Learned ==> final(self).conflicts() == old(self).conflicts() + 1,
            r is Decide ==> final(self).conflicts() == old(self).conflicts() + 1
                || (final(self).conflicts() == old(self).conflicts() && final(self).progress() >= old(self).progress()),
    {
        if self.unsat {
            return Step::Unsat;
        }
        let ghost s0 = *self;
        match self.propagate() {
            None => {
                let mut v: usize = 0;
                while v < self.n_vars && self.assigns[v] != 0
                    invariant
                        self.wf(),
                        v <= self.n_vars,
                        forall|u: int| 0 <= u < v ==> #[trigger] self.assigns@[u] != 0,
                    decreases self.n_vars - v,
                {
                    v += 1;
                }
                if v < self.n_vars {
                    proof { assert(self.assignment()[v as int] is None); }
                    return Step::Decide;
                }
                match self.check_input() {
                    None => {
                        proof {
                            assert forall|u: int| 0 <= u < self.num_vars() implies (#[trigger] self.assignment()[u]) is Some by {
                                assert(self.assigns@[u] != 0);
                                assert(-1 <= self.assigns@[u] <= 1);
                            }
                        }
                        Step::Sat
                    },
                    Some(i) => {
                        if self.decision_level() == 0 {
                            proof {
                                let f = self.formula@;
                                let n = self.n_vars as nat;
                                assert forall|a: Seq<bool>| !models(f, n, a) by {
                                    if models(f, n, a) {
                                        let r = f[i as int];
                                        assert(clause_sat(r, a));
                                        let k = choose|k: int| 0 <= k < r.len() && lit_true(#[trigger] r[k], a);
                                        let x = r[k];
                                        assert(self.input.wf());
                                        let xv = x.spec_var() as int;
                                        assert(self.assigned(xv));
                                        let j = self.pos@[xv];
                                        assert(self.tv(j) == xv);
                                        self.lemma_false_at_level0(x, a);
                                    }
                                }
                            }
                            Step::Unsat
                        } else {
                            self.conflict_count = self.conflict_count + 1;
                            proof { assert(self.inv_shape()); }
                            let ghost s1 = *self;
                            self.cancel_until(0);
                            proof {
                                let j = s1.trail_lim@[0] as int;
                                let u = s1.tv(j);
                                assert(s1.assigned(u));
                                if self.assigned(u) {
                                    assert(self.pos@[u] == s1.pos@[u]);
                                    assert(s1.pos@[u] == j);
                                }
                                assert(self.assignment()[u] is None);
                            }
                            Step::Decide
                        }
                    },
                }
            },
            Some(confl) => {
                let ghost s1 = *self;
                self.conflict_count = self.conflict_count + 1;
                proof {
                    assert(self.inv_shape());
                    assert(self.conflicting(confl as int) == s1.conflicting(confl as int));
                }
                if self.decision_level() == 0 {
                    proof { self.lemma_level0_conflict(confl as int); }
                    return Step::Unsat;
                }
                let (learnt, bt, bumped) = self.analyze(confl);
                let ghost s2 = *self;
                let ghost l = learnt@;
                self.cancel_until(bt);
                proof {
                    let v0 = l[0].spec_var() as int;
                    assert(s2.assigned(v0));
                    if self.assigned(v0) {
                        let j = s2.pos@[v0];
                        assert(s2.tv(j) == v0);
                        assert(s2.trail_lim@[bt as int] <= s2.trail_lim@[s2.cur() - 1]);
                        assert(self.pos@[v0] == j);
                    }
                    assert forall|k: int| 1 <= k < l.len() implies self.is_false(#[trigger] l[k]) by {
                        let xv = l[k].spec_var() as int;
                        assert(s2.is_false(l[k]));
                        assert(s2.assigned(xv));
                        assert(self.assigns@[xv] != 0);
                    }
                }
                self.add_learnt(learnt);
                if self.conflict_count >= self.restart_limit {
                    self.cancel_until(0);
                    self.restart_limit = self.restart_limit + self.restart_limit / 2 + 100;
                    proof { assert(self.inv_shape()); }
                }
                Step::Learned(bumped)
            },
        }
    }

    /// A solver for the formula: every clause is added at level 0 (dropped
    /// if it holds a literal and its negation, with repeated literals
    /// dropped, a unit clause's literal assigned, a longer one stored and
    /// watched), and the resulting assignments are propagated.
    #[verifier::spinoff_prover]
    #[verifier::rlimit(60)]
    pub fn new(cnf: Cnf) -> (s: Solver)
        requires
            cnf.wf(),
            cnf.spec_vars() < 0x8000_0000,
        ensures
            s.wf(),
            s.formula() == cnf.spec_clauses(),
            s.num_vars() == cnf.spec_vars(),
            s.conflicts() == 0,
            s.restart_at() == 100,
            !s.propagated() ==> !satisfiable(s.formula(), s.num_vars()),
    {
        let n = cnf.var_count();
        let mut watches: Vec<Vec<Watcher>> = Vec::new();
        while watches.len() < 2 * n
            invariant
                n < 0x8000_0000,
                watches@.len() <= 2 * n,
                forall|i: int| 0 <= i < watches@.len() ==> (#[trigger] watches@[i])@.len() == 0,
            decreases 2 * n - watches@.len(),
        {
            watches.push(Vec::new());
        }
        let mut assigns: Vec<i8> = Vec::new();
        let mut level: Vec<i32> = Vec::new();
        let mut reason: Vec<Option<usize>> = Vec::new();
        let mut polarity: Vec<bool> = Vec::new();
        while assigns.len() < n
            invariant
                assigns@.len() <= n,
                level@.len() == assigns@.len(),
                reason@.len() == assigns@.len(),
                polarity@.len() == assigns@.len(),
                forall|i: int| 0 <= i < assigns@.len() ==> #[trigger] assigns@[i] == 0 && level@[i] == 0 && reason@[i] is None && polarity@[i],
            decreases n - assigns@.len(),
        {
            assigns.push(0);
            level.push(0);
            reason.push(None);
            polarity.push(true);
        }
        let ghost f = cnf.spec_clauses();
        let mut s = Solver {
            n_vars: n,
            clauses: Vec::new(),
            watches,
            assigns,
            level,
            reason,
            trail: Vec::new(),
            trail_lim: Vec::new(),
            qhead: 0,
            polarity,
            conflict_count: 0,
            restart_limit: 100,
            unsat: false,
            input: Cnf { vars: n, clauses: Vec::new() },
            formula: Ghost(f),
            pos: Ghost(Seq::new(n as nat, |i: int| 0int)),
        };
        proof {
            assert(s.inv_shape());
            assert(s.inv_trail());
            assert(s.inv_reason());
            assert(s.inv_logic());
        }
        let cls = cnf.clauses();
        let mut i: usize = 0;
        while i < cls.len()
            invariant
                s.wf_core(),
                s.watch_inv(),
                s.qhead == 0,
                s.cur() == 0,
                s.formula@ == f,
                s.n_vars == n,
                s.conflict_count == 0,
                s.restart_limit == 100,
                cnf.wf(),
                n == cnf.spec_vars(),
                f == cnf.spec_clauses(),
                cls@.map_values(|c: Clause| c.spec_lits()) == f,
                cls@.len() == f.len(),
                0 <= i <= cls@.len(),
            decreases cls@.len() - i,
        {
            let lits = cls[i].lits();
            proof {
                assert(lits@ == f[i as int]);
                assert forall|k: int| 0 <= k < lits@.len() implies (#[trigger] lits@[k]).spec_var() < s.n_vars by {
                    assert(f[i as int][k] == lits@[k]);
                }
                assert forall|a: Seq<bool>| #[trigger] models(f, n as nat, a) implies clause_sat(lits@, a) by {
                    assert(clause_sat(f[i as int], a));
                }
            }
            if !s.add_clause(lits) {
                s.unsat = true;
            }
            i += 1;
        }
        let ghost pre = s;
        s.input = cnf;
        proof {
            Self::lemma_watch_inv_same(pre, s);
        }
        let confl = s.propagate();
        if let Some(c) = confl {
            proof { s.lemma_level0_conflict(c as int); }
            s.unsat = true;
            proof {
                assert(s.inv_shape());
                assert(s.inv_logic());
            }
        }
        s
    }

    /// The formula the solver was built from.
    pub(crate) fn input(&self) -> (r: &Cnf)
        requires
            self.wf(),
        ensures
            r.spec_clauses() == self.formula(),
            r.spec_vars() == self.num_vars(),
            r.wf(),
    {
        &self.input
    }

    /// Search to an answer, deciding the lowest unassigned variable (with
    /// its phase) whenever a decision is needed.  `None` exactly when the
    /// conflict counter (or the restart point) would overflow before an
    /// answer is found.
    pub fn run(&mut self) -> (r: Option<SatResult>)
        requires
            old(self).wf(),
        ensures
            final(self).wf(),
            final(self).formula() == old(self).formula(),
            final(self).num_vars() == old(self).num_vars(),
            r == Some(SatResult::Unsat) ==> !satisfiable(old(self).formula(), old(self).num_vars()),
            r == Some(SatResult::Sat) ==> satisfiable(old(self).formula(), old(self).num_vars()),
            r == Some(SatResult::Sat) ==> models(final(self).formula(), final(self).num_vars(), final(self).model_of()),
            r == Some(SatResult::Sat) ==> forall|v: int| 0 <= v < final(self).num_vars() ==> (#[trigger] final(self).assignment()[v]) is Some,
            r is None ==> !final(self).step_fits(),
    {
        let ghost s0 = *self;
        loop
            invariant
                self.wf(),
                self.formula() == s0.formula(),
                self.num_vars() == s0.num_vars(),
                s0 == *old(self),
            decreases i32::MAX - self.conflicts(), self.num_vars() - self.progress(),
        {
            if !self.can_step() {
                return None;
            }
            let ghost c0 = self.conflicts();
            let ghost p0 = self.progress();
            proof {
                assert(self.trail@.len() <= self.n_vars);
            }
            match self.step() {
                Step::Sat => {
                    proof {
                        let m = self.model_of();
                        assert(models(self.formula(), self.num_vars(), m));
                    }
                    return Some(SatResult::Sat);
                },
                Step::Unsat => {
                    return Some(SatResult::Unsat);
                },
                Step::Learned(_) => {
                    proof {
                        assert(self.trail@.len() <= self.n_vars);
                    }
                },
                Step::Decide => {
                    let ghost c1 = self.conflicts();
                    let ghost p1 = self.progress();
                    let mut v: usize = 0;
                    while v < self.n_vars && self.assigns[v] != 0
                        invariant
                            self.wf(),
                            v <= self.n_vars,
                            forall|u: int| 0 <= u < v ==> #[trigger] self.assigns@[u] != 0,
                        decreases self.n_vars - v,
                    {
                        v += 1;
                    }
                    if v < self.n_vars {
                        proof {
                            assert(self.assignment()[v as int] is None);
                        }
                        let ok = self.decide(v as Var);
                        proof {
                            assert(ok);
                        }
                    } else {
                        proof {
                            let w = choose|w: int| 0 <= w < self.num_vars() && (#[trigger] self.assignment()[w]) is None;
                            assert(self.assigns@[w] != 0);
                            assert(false);
                        }
                    }
                    proof {
                        assert(self.trail@.len() <= self.n_vars);
                    }
                },
            }
        }
    }

    /// The value of a variable: `None` while it is unassigned.
    pub fn value(&self, v: Var) -> (r: Option<bool>)
        requires
            self.wf(),
            v < self.num_vars(),
        ensures
            r == self.assignment()[v as int],
    {
        let a = self.assigns[v as usize];
        if a == 0 {
            None
        } else if a == 1 {
            Some(true)
        } else {
            Some(false)
        }
    }

    /// The assignment as a vector indexed by variable (`true` where the
    /// variable is assigned true).
    pub fn model(&self) -> (r: Vec<bool>)
        requires
            self.wf(),
        ensures
            r@ == self.model_of(),
    {
        let mut out: Vec<bool> = Vec::new();
        let mut v: usize = 0;
        while v < self.n_vars
            invariant
                self.wf(),
                v <= self.n_vars,
                out@.len() == v,
                forall|u: int| 0 <= u < v ==> out@[u] == (#[trigger] self.assignment()[u] == Some(true)),
            decreases self.n_vars - v,
        {
            out.push(self.assigns[v] == 1);
            v += 1;
        }
        proof { assert(out@ == self.model_of()); }
        out
    }
}

} // verus!
