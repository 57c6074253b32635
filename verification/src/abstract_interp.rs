//! Generic abstract-interpretation framework.
//!
//! Provides the three ingredients of abstract interpretation:
//!
//! 1. An [`AbstractDomain`] trait (the elements of an abstract lattice with
//!    `join`/`meet`/`widen`).
//! 2. A [`Interval`] domain over `i64` — the canonical first domain.
//! 3. A fixpoint [`analyze`] engine over a control-flow graph ([`Cfg`]) of
//!    assignment/assume basic blocks, using a worklist with widening.
//!
//! An interval is viewed as the pair `(lo, hi)` of its bounds; it stands for
//! the integers `x` with `lo <= x <= hi` (none when `lo > hi`). Arithmetic on
//! intervals saturates at the `i64` bounds, and over-approximates the
//! saturating arithmetic of the concrete program.
use vstd::prelude::*;

verus! {

/// A variable identifier (a `0`-based index into the abstract state vector).
pub type VarId = usize;

/// The abstract bottom element `(1, 0)`.
pub open spec fn bot() -> (int, int) {
    (1, 0)
}

/// Whether an interval view stands for no integer at all.
pub open spec fn is_bot(a: (int, int)) -> bool {
    a.0 > a.1
}

/// Whether the integer `x` lies in the interval view `a`.
pub open spec fn gamma(a: (int, int), x: int) -> bool {
    a.0 <= x <= a.1
}

/// Inclusion of concretisations: every integer of `a` is one of `b`.
pub open spec fn iv_le(a: (int, int), b: (int, int)) -> bool {
    is_bot(a) || (!is_bot(b) && b.0 <= a.0 && a.1 <= b.1)
}

/// Both bounds are `i64` values.
pub open spec fn iv_valid(a: (int, int)) -> bool {
    i64::MIN <= a.0 <= i64::MAX && i64::MIN <= a.1 <= i64::MAX
}

/// Clamp an integer into the `i64` range (saturating arithmetic).
pub open spec fn sat(x: int) -> int {
    if x < i64::MIN {
        i64::MIN as int
    } else if x > i64::MAX {
        i64::MAX as int
    } else {
        x
    }
}

/// The smaller of two integers.
pub open spec fn min2(a: int, b: int) -> int {
    if a <= b {
        a
    } else {
        b
    }
}

/// The larger of two integers.
pub open spec fn max2(a: int, b: int) -> int {
    if a >= b {
        a
    } else {
        b
    }
}

/// Least upper bound of two interval views.
pub open spec fn iv_join(a: (int, int), b: (int, int)) -> (int, int) {
    if is_bot(a) {
        b
    } else if is_bot(b) {
        a
    } else {
        (min2(a.0, b.0), max2(a.1, b.1))
    }
}

/// Greatest lower bound of two interval views.
pub open spec fn iv_meet(a: (int, int), b: (int, int)) -> (int, int) {
    if is_bot(a) || is_bot(b) || max2(a.0, b.0) > min2(a.1, b.1) {
        bot()
    } else {
        (max2(a.0, b.0), min2(a.1, b.1))
    }
}

/// Widening: a bound that grows jumps straight to the `i64` limit.
pub open spec fn iv_widen(a: (int, int), b: (int, int)) -> (int, int) {
    if is_bot(a) {
        b
    } else if is_bot(b) {
        a
    } else {
        (
            if b.0 < a.0 {
                i64::MIN as int
            } else {
                a.0
            },
            if b.1 > a.1 {
                i64::MAX as int
            } else {
                a.1
            },
        )
    }
}

/// Interval addition.
pub open spec fn iv_add(a: (int, int), b: (int, int)) -> (int, int) {
    if is_bot(a) || is_bot(b) {
        bot()
    } else {
        (sat(a.0 + b.0), sat(a.1 + b.1))
    }
}

/// Interval subtraction.
pub open spec fn iv_sub(a: (int, int), b: (int, int)) -> (int, int) {
    if is_bot(a) || is_bot(b) {
        bot()
    } else {
        (sat(a.0 - b.1), sat(a.1 - b.0))
    }
}

/// Interval multiplication: the hull of the four saturated corner products.
pub open spec fn iv_mul(a: (int, int), b: (int, int)) -> (int, int) {
    if is_bot(a) || is_bot(b) {
        bot()
    } else {
        let c1 = sat(a.0 * b.0);
        let c2 = sat(a.0 * b.1);
        let c3 = sat(a.1 * b.0);
        let c4 = sat(a.1 * b.1);
        (min2(min2(c1, c2), min2(c3, c4)), max2(max2(c1, c2), max2(c3, c4)))
    }
}

/// Interval negation.
pub open spec fn iv_neg(a: (int, int)) -> (int, int) {
    if is_bot(a) {
        bot()
    } else {
        (sat(0 - a.1), sat(0 - a.0))
    }
}

/// The contract every abstract domain must satisfy.
///
/// `join` (least upper bound) over-approximates disjunction (merging two
/// execution paths); `meet` is the greatest lower bound; `widen` is the
/// widening operator that enforces termination of ascending fixpoint
/// iteration; `bottom` is the empty set (unreachable / contradictory state).
pub trait AbstractDomain: Sized {
    /// The abstract order: every concrete state of `self` is one of `other`.
    spec fn below(&self, other: &Self) -> bool;

    /// Whether `self` stands for no concrete state.
    spec fn empty(&self) -> bool;

    /// Whether two elements can be combined (same shape).
    spec fn compatible(&self, other: &Self) -> bool;

    /// Whether the domain has a top element that can be built from nothing.
    spec fn has_top() -> bool;

    /// The top element: no information (all behaviors possible).
    fn top() -> (r: Self)
        requires
            Self::has_top(),
    ;

    /// The bottom element: the empty set of concrete states.
    fn bottom() -> (r: Self)
        ensures
            r.empty(),
    ;

    /// Whether this element is bottom.
    fn is_bottom(&self) -> (r: bool)
        ensures
            r == self.empty(),
    ;

    /// Least upper bound (over-approximation of disjunction).
    fn join(&self, other: &Self) -> (r: Self)
        ensures
            self.compatible(other) ==> self.below(&r) && other.below(&r),
    ;

    /// Greatest lower bound (over-approximation of conjunction).
    fn meet(&self, other: &Self) -> (r: Self)
        ensures
            self.compatible(other) ==> r.below(self) && r.below(other),
    ;

    /// Widening operator used to force fixpoint termination.
    fn widen(&self, other: &Self) -> (r: Self)
        ensures
            self.compatible(other) ==> self.below(&r) && other.below(&r),
    ;
}

/// A numeric interval `[lo, hi]` over `i64`.
///
/// `lo > hi` represents the bottom (empty) domain element. `top` is
/// `[i64::MIN, i64::MAX]`. Arithmetic is saturating so it never panics and
/// always over-approximates.
#[derive(Clone, Copy, Debug, PartialEq, Eq, Structural)]
pub struct Interval {
    lo: i64,
    hi: i64,
}

impl View for Interval {
    type V = (int, int);

    closed spec fn view(&self) -> (int, int) {
        (self.lo as int, self.hi as int)
    }
}

fn sat_add(a: i64, b: i64) -> (r: i64)
    ensures
        r == sat(a + b),
{
    let s: i128 = a as i128 + b as i128;
    if s > i64::MAX as i128 {
        i64::MAX
    } else if s < i64::MIN as i128 {
        i64::MIN
    } else {
        s as i64
    }
}

fn sat_sub(a: i64, b: i64) -> (r: i64)
    ensures
        r == sat(a - b),
{
    let s: i128 = a as i128 - b as i128;
    if s > i64::MAX as i128 {
        i64::MAX
    } else if s < i64::MIN as i128 {
        i64::MIN
    } else {
        s as i64
    }
}

fn sat_mul(a: i64, b: i64) -> (r: i64)
    ensures
        r == sat(a * b),
{
    let x: i128 = a as i128;
    let y: i128 = b as i128;
    assert(-0x4000_0000_0000_0000_0000_0000_0000_0000 <= x * y <= 0x4000_0000_0000_0000_0000_0000_0000_0000)
        by (nonlinear_arith)
        requires
            -0x8000_0000_0000_0000 <= x <= 0x7fff_ffff_ffff_ffff,
            -0x8000_0000_0000_0000 <= y <= 0x7fff_ffff_ffff_ffff,
    ;
    let s: i128 = x * y;
    if s > i64::MAX as i128 {
        i64::MAX
    } else if s < i64::MIN as i128 {
        i64::MIN
    } else {
        s as i64
    }
}

fn min_i64(a: i64, b: i64) -> (r: i64)
    ensures
        r == min2(a as int, b as int),
{
    if a <= b {
        a
    } else {
        b
    }
}

fn max_i64(a: i64, b: i64) -> (r: i64)
    ensures
        r == max2(a as int, b as int),
{
    if a >= b {
        a
    } else {
        b
    }
}

impl Interval {
    /// Construct `[lo, hi]`. A range with `lo > hi` is the bottom element.
    pub fn new(lo: i64, hi: i64) -> (r: Interval)
        ensures
            r@ == (lo as int, hi as int),
    {
        Interval { lo, hi }
    }

    /// The lower bound.
    pub fn lo(&self) -> (r: i64)
        ensures
            r == self@.0,
    {
        self.lo
    }

    /// The upper bound.
    pub fn hi(&self) -> (r: i64)
        ensures
            r == self@.1,
    {
        self.hi
    }

    /// Both bounds of an interval are `i64` values.
    pub proof fn lemma_valid(&self)
        ensures
            iv_valid(self@),
    {
    }

    /// Whether the interval contains the concrete value `x`.
    pub fn contains(&self, x: i64) -> (r: bool)
        ensures
            r == gamma(self@, x as int),
    {
        !self.is_bottom() && self.lo <= x && x <= self.hi
    }

    /// Whether this interval is the top element (no information).
    pub fn is_top(&self) -> (r: bool)
        ensures
            r == (self@ == (i64::MIN as int, i64::MAX as int)),
    {
        !self.is_bottom() && self.lo == i64::MIN && self.hi == i64::MAX
    }

    /// Interval addition (saturating).
    pub fn add(self, o: Interval) -> (r: Interval)
        ensures
            r@ == iv_add(self@, o@),
    {
        if self.is_bottom() || o.is_bottom() {
            return Interval::bottom();
        }
        Interval::new(sat_add(self.lo, o.lo), sat_add(self.hi, o.hi))
    }

    /// Interval subtraction (saturating).
    pub fn sub(self, o: Interval) -> (r: Interval)
        ensures
            r@ == iv_sub(self@, o@),
    {
        if self.is_bottom() || o.is_bottom() {
            return Interval::bottom();
        }
        Interval::new(sat_sub(self.lo, o.hi), sat_sub(self.hi, o.lo))
    }

    /// Interval multiplication (saturating).
    pub fn mul(self, o: Interval) -> (r: Interval)
        ensures
            r@ == iv_mul(self@, o@),
    {
        if self.is_bottom() || o.is_bottom() {
            return Interval::bottom();
        }
        let c1 = sat_mul(self.lo, o.lo);
        let c2 = sat_mul(self.lo, o.hi);
        let c3 = sat_mul(self.hi, o.lo);
        let c4 = sat_mul(self.hi, o.hi);
        let lo = min_i64(min_i64(c1, c2), min_i64(c3, c4));
        let hi = max_i64(max_i64(c1, c2), max_i64(c3, c4));
        Interval::new(lo, hi)
    }

    /// Interval negation (saturating).
    pub fn neg(self) -> (r: Interval)
        ensures
            r@ == iv_neg(self@),
    {
        if self.is_bottom() {
            return Interval::bottom();
        }
        Interval::new(sat_sub(0, self.hi), sat_sub(0, self.lo))
    }
}

impl AbstractDomain for Interval {
    open spec fn below(&self, other: &Interval) -> bool {
        iv_le(self@, other@)
    }

    open spec fn empty(&self) -> bool {
        is_bot(self@)
    }

    open spec fn compatible(&self, other: &Interval) -> bool {
        true
    }

    open spec fn has_top() -> bool {
        true
    }

    fn top() -> (r: Interval)
        ensures
            r@ == (i64::MIN as int, i64::MAX as int),
    {
        Interval { lo: i64::MIN, hi: i64::MAX }
    }

    fn bottom() -> (r: Interval)
        ensures
            r@ == bot(),
    {
        Interval { lo: 1, hi: 0 }
    }

    fn is_bottom(&self) -> (r: bool) {
        self.lo > self.hi
    }

    fn join(&self, other: &Interval) -> (r: Interval)
        ensures
            r@ == iv_join(self@, other@),
    {
        if self.is_bottom() {
            return *other;
        }
        if other.is_bottom() {
            return *self;
        }
        Interval { lo: min_i64(self.lo, other.lo), hi: max_i64(self.hi, other.hi) }
    }

    fn meet(&self, other: &Interval) -> (r: Interval)
        ensures
            r@ == iv_meet(self@, other@),
    {
        if self.is_bottom() || other.is_bottom() {
            return Interval::bottom();
        }
        let lo = max_i64(self.lo, other.lo);
        let hi = min_i64(self.hi, other.hi);
        if lo > hi {
            Interval::bottom()
        } else {
            Interval { lo, hi }
        }
    }

    fn widen(&self, other: &Interval) -> (r: Interval)
        ensures
            r@ == iv_widen(self@, other@),
    {
        if self.is_bottom() {
            return *other;
        }
        if other.is_bottom() {
            return *self;
        }
        let lo = if other.lo < self.lo {
            i64::MIN
        } else {
            self.lo
        };
        let hi = if other.hi > self.hi {
            i64::MAX
        } else {
            self.hi
        };
        Interval { lo, hi }
    }
}

/// `iv_le` is the inclusion of concretisations.
pub proof fn lemma_iv_le_gamma(a: (int, int), b: (int, int), x: int)
    requires
        iv_le(a, b),
        gamma(a, x),
    ensures
        gamma(b, x),
{
}

/// `join` is the least upper bound: it contains both arguments, and it is
/// contained in every interval that contains both.
pub proof fn lemma_join_is_lub(a: (int, int), b: (int, int), c: (int, int))
    ensures
        iv_le(a, iv_join(a, b)),
        iv_le(b, iv_join(a, b)),
        iv_le(a, c) && iv_le(b, c) ==> iv_le(iv_join(a, b), c),
{
}

/// `meet` is exact: an integer lies in the meet iff it lies in both.
pub proof fn lemma_meet_is_intersection(a: (int, int), b: (int, int), x: int)
    ensures
        gamma(iv_meet(a, b), x) <==> (gamma(a, x) && gamma(b, x)),
{
}

/// Widening contains both arguments, and from a non-empty interval each
/// bound either stays or jumps to the `i64` limit, so an ascending chain of
/// widenings stabilises after at most two changes.
pub proof fn lemma_widen_bounds(a: (int, int), b: (int, int))
    requires
        iv_valid(a),
        iv_valid(b),
    ensures
        iv_le(a, iv_widen(a, b)),
        iv_le(b, iv_widen(a, b)),
        !is_bot(a) ==> (iv_widen(a, b).0 == a.0 || iv_widen(a, b).0 == i64::MIN),
        !is_bot(a) ==> (iv_widen(a, b).1 == a.1 || iv_widen(a, b).1 == i64::MAX),
        !is_bot(a) ==> !is_bot(iv_widen(a, b)),
{
}

/// The views of a sequence of intervals.
pub open spec fn ivs(v: Seq<Interval>) -> Seq<(int, int)> {
    v.map_values(|i: Interval| i@)
}

/// Every bound in the abstract state is an `i64` value.
pub open spec fn valid_state(s: Seq<(int, int)>) -> bool {
    forall|i: int| 0 <= i < s.len() ==> iv_valid(#[trigger] s[i])
}

/// Pointwise inclusion of two abstract states of the same length.
pub open spec fn states_le(a: Seq<(int, int)>, b: Seq<(int, int)>) -> bool {
    a.len() == b.len() && forall|i: int| 0 <= i < a.len() ==> iv_le(#[trigger] a[i], b[i])
}

/// The concrete state `xs` is one of the states the abstract state `s`
/// stands for.
pub open spec fn in_state(s: Seq<(int, int)>, xs: Seq<int>) -> bool {
    s.len() == xs.len() && forall|i: int| 0 <= i < s.len() ==> gamma(#[trigger] s[i], xs[i])
}

/// The views of an interval vector are `i64` bounds.
pub proof fn lemma_ivs_valid(v: Seq<Interval>)
    ensures
        valid_state(ivs(v)),
{
    assert forall|i: int| 0 <= i < ivs(v).len() implies iv_valid(#[trigger] ivs(v)[i]) by {
        v[i].lemma_valid();
    }
}


proof fn lemma_states_le_trans(a: Seq<(int, int)>, b: Seq<(int, int)>, c: Seq<(int, int)>)
    requires
        states_le(a, b),
        states_le(b, c),
    ensures
        states_le(a, c),
{
    assert forall|i: int| 0 <= i < a.len() implies iv_le(#[trigger] a[i], c[i]) by {
        assert(iv_le(a[i], b[i]));
        assert(iv_le(b[i], c[i]));
    }
}

/// The shorter of two lengths.
pub open spec fn min_len(a: nat, b: nat) -> nat {
    if a <= b {
        a
    } else {
        b
    }
}

fn copy_intervals(v: &[Interval]) -> (r: Vec<Interval>)
    ensures
        r@ == v@,
{
    vstd::slice::slice_to_vec(v)
}

fn same_intervals(a: &Vec<Interval>, b: &Vec<Interval>) -> (r: bool)
    ensures
        r == (ivs(a@) == ivs(b@)),
{
    if a.len() != b.len() {
        proof {
            assert(ivs(a@).len() != ivs(b@).len());
        }
        return false;
    }
    let mut i: usize = 0;
    while i < a.len()
        invariant
            0 <= i <= a@.len(),
            a@.len() == b@.len(),
            forall|k: int| 0 <= k < i ==> (#[trigger] ivs(a@)[k]) == ivs(b@)[k],
        decreases a@.len() - i,
    {
        if a[i] != b[i] {
            proof {
                assert(ivs(a@)[i as int] != ivs(b@)[i as int]);
            }
            return false;
        }
        i += 1;
    }
    proof {
        assert(ivs(a@) =~= ivs(b@));
    }
    true
}

impl AbstractDomain for Vec<Interval> {
    open spec fn below(&self, other: &Vec<Interval>) -> bool {
        states_le(ivs(self@), ivs(other@))
    }

    open spec fn empty(&self) -> bool {
        forall|i: int| 0 <= i < self@.len() ==> is_bot(#[trigger] ivs(self@)[i])
    }

    open spec fn compatible(&self, other: &Vec<Interval>) -> bool {
        self@.len() == other@.len()
    }

    /// A state vector has no top element without a variable count.
    open spec fn has_top() -> bool {
        false
    }

    fn top() -> (r: Vec<Interval>) {
        Vec::new()
    }

    fn bottom() -> (r: Vec<Interval>)
        ensures
            r@.len() == 0,
    {
        Vec::new()
    }

    fn is_bottom(&self) -> (r: bool) {
        let mut i: usize = 0;
        while i < self.len()
            invariant
                0 <= i <= self@.len(),
                forall|k: int| 0 <= k < i ==> is_bot(#[trigger] ivs(self@)[k]),
            decreases self@.len() - i,
        {
            if !self[i].is_bottom() {
                proof {
                    assert(ivs(self@)[i as int] == self@[i as int]@);
                }
                return false;
            }
            i += 1;
        }
        true
    }

    fn join(&self, other: &Vec<Interval>) -> (r: Vec<Interval>)
        ensures
            ivs(r@) == Seq::new(
                min_len(self@.len(), other@.len()),
                |i: int| iv_join(ivs(self@)[i], ivs(other@)[i]),
            ),
    {
        let n = if self.len() <= other.len() {
            self.len()
        } else {
            other.len()
        };
        let mut r: Vec<Interval> = Vec::new();
        let mut i: usize = 0;
        while i < n
            invariant
                0 <= i <= n,
                n == min_len(self@.len(), other@.len()),
                r@.len() == i,
                forall|k: int| 0 <= k < i ==> (#[trigger] ivs(r@)[k]) == iv_join(ivs(self@)[k], ivs(other@)[k]),
            decreases n - i,
        {
            let x = self[i].join(&other[i]);
            proof {
                assert(ivs(self@)[i as int] == self@[i as int]@);
                assert(ivs(other@)[i as int] == other@[i as int]@);
            }
            let ghost r0 = r@;
            r.push(x);
            proof {
                assert(r@ == r0.push(x));
                assert(ivs(r@)[i as int] == x@);
                assert forall|k: int| 0 <= k < i + 1 implies (#[trigger] ivs(r@)[k]) == iv_join(
                    ivs(self@)[k],
                    ivs(other@)[k],
                ) by {
                    if k < i {
                        assert(r@[k] == r0[k]);
                        assert(ivs(r@)[k] == ivs(r0)[k]);
                    }
                }
            }
            i += 1;
        }
        proof {
            assert(ivs(r@) =~= Seq::new(
                min_len(self@.len(), other@.len()),
                |i: int| iv_join(ivs(self@)[i], ivs(other@)[i]),
            ));
            lemma_ivs_valid(self@);
            lemma_ivs_valid(other@);
            if self@.len() == other@.len() {
                assert forall|k: int| 0 <= k < self@.len() implies iv_le(
                    #[trigger] ivs(self@)[k],
                    ivs(r@)[k],
                ) && iv_le(ivs(other@)[k], ivs(r@)[k]) by {
                    assert(iv_valid(ivs(self@)[k]));
                    assert(iv_valid(ivs(other@)[k]));
                }
            }
        }
        r
    }

    fn meet(&self, other: &Vec<Interval>) -> (r: Vec<Interval>)
        ensures
            ivs(r@) == Seq::new(
                min_len(self@.len(), other@.len()),
                |i: int| iv_meet(ivs(self@)[i], ivs(other@)[i]),
            ),
    {
        let n = if self.len() <= other.len() {
            self.len()
        } else {
            other.len()
        };
        let mut r: Vec<Interval> = Vec::new();
        let mut i: usize = 0;
        while i < n
            invariant
                0 <= i <= n,
                n == min_len(self@.len(), other@.len()),
                r@.len() == i,
                forall|k: int| 0 <= k < i ==> (#[trigger] ivs(r@)[k]) == iv_meet(ivs(self@)[k], ivs(other@)[k]),
            decreases n - i,
        {
            let x = self[i].meet(&other[i]);
            proof {
                assert(ivs(self@)[i as int] == self@[i as int]@);
                assert(ivs(other@)[i as int] == other@[i as int]@);
            }
            let ghost r0 = r@;
            r.push(x);
            proof {
                assert(r@ == r0.push(x));
                assert(ivs(r@)[i as int] == x@);
                assert forall|k: int| 0 <= k < i + 1 implies (#[trigger] ivs(r@)[k]) == iv_meet(
                    ivs(self@)[k],
                    ivs(other@)[k],
                ) by {
                    if k < i {
                        assert(r@[k] == r0[k]);
                        assert(ivs(r@)[k] == ivs(r0)[k]);
                    }
                }
            }
            i += 1;
        }
        proof {
            assert(ivs(r@) =~= Seq::new(
                min_len(self@.len(), other@.len()),
                |i: int| iv_meet(ivs(self@)[i], ivs(other@)[i]),
            ));
        }
        r
    }

    fn widen(&self, other: &Vec<Interval>) -> (r: Vec<Interval>)
        ensures
            ivs(r@) == Seq::new(
                min_len(self@.len(), other@.len()),
                |i: int| iv_widen(ivs(self@)[i], ivs(other@)[i]),
            ),
    {
        let n = if self.len() <= other.len() {
            self.len()
        } else {
            other.len()
        };
        let mut r: Vec<Interval> = Vec::new();
        let mut i: usize = 0;
        while i < n
            invariant
                0 <= i <= n,
                n == min_len(self@.len(), other@.len()),
                r@.len() == i,
                forall|k: int| 0 <= k < i ==> (#[trigger] ivs(r@)[k]) == iv_widen(ivs(self@)[k], ivs(other@)[k]),
            decreases n - i,
        {
            let x = self[i].widen(&other[i]);
            proof {
                assert(ivs(self@)[i as int] == self@[i as int]@);
                assert(ivs(other@)[i as int] == other@[i as int]@);
            }
            let ghost r0 = r@;
            r.push(x);
            proof {
                assert(r@ == r0.push(x));
                assert(ivs(r@)[i as int] == x@);
                assert forall|k: int| 0 <= k < i + 1 implies (#[trigger] ivs(r@)[k]) == iv_widen(
                    ivs(self@)[k],
                    ivs(other@)[k],
                ) by {
                    if k < i {
                        assert(r@[k] == r0[k]);
                        assert(ivs(r@)[k] == ivs(r0)[k]);
                    }
                }
            }
            i += 1;
        }
        proof {
            assert(ivs(r@) =~= Seq::new(
                min_len(self@.len(), other@.len()),
                |i: int| iv_widen(ivs(self@)[i], ivs(other@)[i]),
            ));
            lemma_ivs_valid(self@);
            lemma_ivs_valid(other@);
            if self@.len() == other@.len() {
                assert forall|k: int| 0 <= k < self@.len() implies iv_le(
                    #[trigger] ivs(self@)[k],
                    ivs(r@)[k],
                ) && iv_le(ivs(other@)[k], ivs(r@)[k]) by {
                    assert(iv_valid(ivs(self@)[k]));
                    assert(iv_valid(ivs(other@)[k]));
                }
            }
        }
        r
    }
}

/// A numeric expression over program variables, used by the transfer
/// functions of the fixpoint engine.
#[derive(Debug, PartialEq)]
pub enum Expr {
    /// A constant integer.
    Const(i64),
    /// Reading a variable.
    Var(VarId),
    /// Addition.
    Add(Box<Expr>, Box<Expr>),
    /// Subtraction.
    Sub(Box<Expr>, Box<Expr>),
    /// Multiplication.
    Mul(Box<Expr>, Box<Expr>),
    /// Negation.
    Neg(Box<Expr>),
}

impl Clone for Expr {
    fn clone(&self) -> (r: Self)
        ensures
            r == *self,
        decreases self,
    {
        match self {
            Expr::Const(c) => Expr::Const(*c),
            Expr::Var(v) => Expr::Var(*v),
            Expr::Add(a, b) => Expr::Add(Box::new(Expr::clone(a)), Box::new(Expr::clone(b))),
            Expr::Sub(a, b) => Expr::Sub(Box::new(Expr::clone(a)), Box::new(Expr::clone(b))),
            Expr::Mul(a, b) => Expr::Mul(Box::new(Expr::clone(a)), Box::new(Expr::clone(b))),
            Expr::Neg(a) => Expr::Neg(Box::new(Expr::clone(a))),
        }
    }
}

/// Every variable read by `e` is below `n`.
pub open spec fn vars_below(e: Expr, n: nat) -> bool
    decreases e,
{
    match e {
        Expr::Const(_) => true,
        Expr::Var(v) => v < n,
        Expr::Add(a, b) => vars_below(*a, n) && vars_below(*b, n),
        Expr::Sub(a, b) => vars_below(*a, n) && vars_below(*b, n),
        Expr::Mul(a, b) => vars_below(*a, n) && vars_below(*b, n),
        Expr::Neg(a) => vars_below(*a, n),
    }
}

/// The abstract value of `e` in the abstract state `s`.
pub open spec fn aeval(e: Expr, s: Seq<(int, int)>) -> (int, int)
    decreases e,
{
    match e {
        Expr::Const(c) => (c as int, c as int),
        Expr::Var(v) => if is_bot(s[v as int]) {
            bot()
        } else {
            s[v as int]
        },
        Expr::Add(a, b) => iv_add(aeval(*a, s), aeval(*b, s)),
        Expr::Sub(a, b) => iv_sub(aeval(*a, s), aeval(*b, s)),
        Expr::Mul(a, b) => iv_mul(aeval(*a, s), aeval(*b, s)),
        Expr::Neg(a) => iv_neg(aeval(*a, s)),
    }
}

/// The concrete value of `e` in the concrete state `xs`, with the saturating
/// `i64` arithmetic the domain models.
pub open spec fn ceval(e: Expr, xs: Seq<int>) -> int
    decreases e,
{
    match e {
        Expr::Const(c) => c as int,
        Expr::Var(v) => xs[v as int],
        Expr::Add(a, b) => sat(ceval(*a, xs) + ceval(*b, xs)),
        Expr::Sub(a, b) => sat(ceval(*a, xs) - ceval(*b, xs)),
        Expr::Mul(a, b) => sat(ceval(*a, xs) * ceval(*b, xs)),
        Expr::Neg(a) => sat(0 - ceval(*a, xs)),
    }
}

impl Expr {
    /// A constant expression.
    pub fn const_(c: i64) -> (r: Expr)
        ensures
            r == Expr::Const(c),
    {
        Expr::Const(c)
    }

    /// A variable read.
    pub fn var(v: VarId) -> (r: Expr)
        ensures
            r == Expr::Var(v),
    {
        Expr::Var(v)
    }

    /// `a + b`.
    pub fn add(a: Expr, b: Expr) -> (r: Expr)
        ensures
            r == Expr::Add(Box::new(a), Box::new(b)),
    {
        Expr::Add(Box::new(a), Box::new(b))
    }

    /// `a - b`.
    pub fn sub(a: Expr, b: Expr) -> (r: Expr)
        ensures
            r == Expr::Sub(Box::new(a), Box::new(b)),
    {
        Expr::Sub(Box::new(a), Box::new(b))
    }

    /// `a * b`.
    pub fn mul(a: Expr, b: Expr) -> (r: Expr)
        ensures
            r == Expr::Mul(Box::new(a), Box::new(b)),
    {
        Expr::Mul(Box::new(a), Box::new(b))
    }

    /// `-a`.
    pub fn neg(a: Expr) -> (r: Expr)
        ensures
            r == Expr::Neg(Box::new(a)),
    {
        Expr::Neg(Box::new(a))
    }

    /// Evaluate the expression against an abstract state of intervals.
    ///
    /// Returns `Interval::bottom` if any referenced variable is bottom.
    pub fn eval(&self, state: &[Interval]) -> (r: Interval)
        requires
            vars_below(*self, state@.len()),
        ensures
            r@ == aeval(*self, ivs(state@)),
        decreases self,
    {
        match self {
            Expr::Const(c) => Interval::new(*c, *c),
            Expr::Var(v) => {
                let i = state[*v];
                proof {
                    assert(ivs(state@)[*v as int] == i@);
                }
                if i.is_bottom() {
                    Interval::bottom()
                } else {
                    i
                }
            },
            Expr::Add(a, b) => a.eval(state).add(b.eval(state)),
            Expr::Sub(a, b) => a.eval(state).sub(b.eval(state)),
            Expr::Mul(a, b) => a.eval(state).mul(b.eval(state)),
            Expr::Neg(a) => a.eval(state).neg(),
        }
    }
}

proof fn lemma_mul_hull(x: int, y: int, a0: int, a1: int, b0: int, b1: int)
    requires
        a0 <= x <= a1,
        b0 <= y <= b1,
    ensures
        min2(min2(a0 * b0, a0 * b1), min2(a1 * b0, a1 * b1)) <= x * y,
        x * y <= max2(max2(a0 * b0, a0 * b1), max2(a1 * b0, a1 * b1)),
{
    if x >= 0 {
        assert(x * b0 <= x * y <= x * b1) by (nonlinear_arith)
            requires
                x >= 0,
                b0 <= y <= b1,
        ;
    } else {
        assert(x * b1 <= x * y <= x * b0) by (nonlinear_arith)
            requires
                x < 0,
                b0 <= y <= b1,
        ;
    }
    assert(min2(a0 * b0, a1 * b0) <= x * b0 <= max2(a0 * b0, a1 * b0)) by (nonlinear_arith)
        requires
            a0 <= x <= a1,
    ;
    assert(min2(a0 * b1, a1 * b1) <= x * b1 <= max2(a0 * b1, a1 * b1)) by (nonlinear_arith)
        requires
            a0 <= x <= a1,
    ;
}

/// Interval multiplication is sound: the (saturated) product of any two
/// members is a member of the product interval, whatever their signs.
pub proof fn lemma_mul_sound(a: (int, int), b: (int, int), x: int, y: int)
    requires
        gamma(a, x),
        gamma(b, y),
    ensures
        gamma(iv_mul(a, b), sat(x * y)),
{
    lemma_mul_hull(x, y, a.0, a.1, b.0, b.1);
    let lo = min2(min2(a.0 * b.0, a.0 * b.1), min2(a.1 * b.0, a.1 * b.1));
    let hi = max2(max2(a.0 * b.0, a.0 * b.1), max2(a.1 * b.0, a.1 * b.1));
    lemma_sat_mono(lo, x * y);
    lemma_sat_mono(x * y, hi);
}

proof fn lemma_sat_mono(p: int, q: int)
    requires
        p <= q,
    ensures
        sat(p) <= sat(q),
{
}

/// Every bound the abstract evaluation produces is an `i64` value.
pub proof fn lemma_aeval_valid(e: Expr, s: Seq<(int, int)>)
    requires
        vars_below(e, s.len()),
        valid_state(s),
    ensures
        iv_valid(aeval(e, s)),
    decreases e,
{
    match e {
        Expr::Const(_) => {},
        Expr::Var(v) => {
            assert(iv_valid(s[v as int]));
        },
        Expr::Add(a, b) => {
            lemma_aeval_valid(*a, s);
            lemma_aeval_valid(*b, s);
        },
        Expr::Sub(a, b) => {
            lemma_aeval_valid(*a, s);
            lemma_aeval_valid(*b, s);
        },
        Expr::Mul(a, b) => {
            lemma_aeval_valid(*a, s);
            lemma_aeval_valid(*b, s);
        },
        Expr::Neg(a) => {
            lemma_aeval_valid(*a, s);
        },
    }
}

/// Soundness of expression evaluation: in a concrete state that the
/// abstract state covers, the concrete value of an expression lies in its
/// abstract value.
pub proof fn lemma_eval_sound(e: Expr, s: Seq<(int, int)>, xs: Seq<int>)
    requires
        vars_below(e, s.len()),
        valid_state(s),
        in_state(s, xs),
    ensures
        gamma(aeval(e, s), ceval(e, xs)),
    decreases e,
{
    match e {
        Expr::Const(_) => {},
        Expr::Var(v) => {
            assert(gamma(s[v as int], xs[v as int]));
        },
        Expr::Add(a, b) => {
            lemma_eval_sound(*a, s, xs);
            lemma_eval_sound(*b, s, xs);
            let (va, vb) = (aeval(*a, s), aeval(*b, s));
            let (x, y) = (ceval(*a, xs), ceval(*b, xs));
            lemma_sat_mono(va.0 + vb.0, x + y);
            lemma_sat_mono(x + y, va.1 + vb.1);
        },
        Expr::Sub(a, b) => {
            lemma_eval_sound(*a, s, xs);
            lemma_eval_sound(*b, s, xs);
            let (va, vb) = (aeval(*a, s), aeval(*b, s));
            let (x, y) = (ceval(*a, xs), ceval(*b, xs));
            lemma_sat_mono(va.0 - vb.1, x - y);
            lemma_sat_mono(x - y, va.1 - vb.0);
        },
        Expr::Mul(a, b) => {
            lemma_eval_sound(*a, s, xs);
            lemma_eval_sound(*b, s, xs);
            let (va, vb) = (aeval(*a, s), aeval(*b, s));
            let (x, y) = (ceval(*a, xs), ceval(*b, xs));
            lemma_mul_hull(x, y, va.0, va.1, vb.0, vb.1);
            let lo = min2(min2(va.0 * vb.0, va.0 * vb.1), min2(va.1 * vb.0, va.1 * vb.1));
            let hi = max2(max2(va.0 * vb.0, va.0 * vb.1), max2(va.1 * vb.0, va.1 * vb.1));
            lemma_sat_mono(lo, x * y);
            lemma_sat_mono(x * y, hi);
        },
        Expr::Neg(a) => {
            lemma_eval_sound(*a, s, xs);
            let va = aeval(*a, s);
            let x = ceval(*a, xs);
            lemma_sat_mono(0 - va.1, 0 - x);
            lemma_sat_mono(0 - x, 0 - va.0);
        },
    }
}

/// A comparison operator used by [`Stmt::Assume`].
#[derive(Clone, Copy, Debug, PartialEq, Eq, Structural)]
pub enum CmpOp {
    /// `var < k`.
    Lt,
    /// `var <= k`.
    Le,
    /// `var > k`.
    Gt,
    /// `var >= k`.
    Ge,
    /// `var == k`.
    Eq,
}

/// Whether `x <op> k` holds.
pub open spec fn constraint_holds(x: int, op: CmpOp, k: int) -> bool {
    match op {
        CmpOp::Lt => x < k,
        CmpOp::Le => x <= k,
        CmpOp::Gt => x > k,
        CmpOp::Ge => x >= k,
        CmpOp::Eq => x == k,
    }
}

/// Refinement of an interval by the constraint `x <op> k`.
pub open spec fn iv_narrow(a: (int, int), op: CmpOp, k: int) -> (int, int) {
    if is_bot(a) {
        bot()
    } else {
        let (lo, hi) = match op {
            CmpOp::Lt => (a.0, min2(a.1, sat(k - 1))),
            CmpOp::Le => (a.0, min2(a.1, k)),
            CmpOp::Gt => (max2(a.0, sat(k + 1)), a.1),
            CmpOp::Ge => (max2(a.0, k), a.1),
            CmpOp::Eq => (max2(a.0, k), min2(a.1, k)),
        };
        if lo > hi {
            bot()
        } else {
            (lo, hi)
        }
    }
}

/// A single statement in a basic block.
#[derive(Debug, PartialEq)]
pub enum Stmt {
    /// `v = expr`.
    Assign(VarId, Expr),
    /// Refine `v`'s interval by the constraint `v <op> k` (sound over-approx).
    Assume(VarId, CmpOp, i64),
}

impl Clone for Stmt {
    fn clone(&self) -> (r: Self)
        ensures
            r == *self,
    {
        match self {
            Stmt::Assign(v, e) => Stmt::Assign(*v, e.clone()),
            Stmt::Assume(v, op, k) => Stmt::Assume(*v, *op, *k),
        }
    }
}

impl Stmt {
    /// Build an assignment statement.
    pub fn assign(v: VarId, expr: Expr) -> (r: Stmt)
        ensures
            r == Stmt::Assign(v, expr),
    {
        Stmt::Assign(v, expr)
    }

    /// Build an assume (narrowing) statement.
    pub fn assuming(v: VarId, op: CmpOp, k: i64) -> (r: Stmt)
        ensures
            r == Stmt::Assume(v, op, k),
    {
        Stmt::Assume(v, op, k)
    }
}

/// Every variable a statement reads or writes is below `n`.
pub open spec fn stmt_ok(st: Stmt, n: nat) -> bool {
    match st {
        Stmt::Assign(v, e) => v < n && vars_below(e, n),
        Stmt::Assume(v, _, _) => v < n,
    }
}

/// Every statement's variables are below `n`.
pub open spec fn stmts_ok(stmts: Seq<Stmt>, n: nat) -> bool {
    forall|i: int| 0 <= i < stmts.len() ==> stmt_ok(#[trigger] stmts[i], n)
}

/// The abstract effect of one statement.
pub open spec fn astep(st: Stmt, s: Seq<(int, int)>) -> Seq<(int, int)> {
    match st {
        Stmt::Assign(v, e) => s.update(v as int, aeval(e, s)),
        Stmt::Assume(v, op, k) => s.update(v as int, iv_narrow(s[v as int], op, k as int)),
    }
}

/// The abstract effect of the first `k` statements.
pub open spec fn transfer_upto(stmts: Seq<Stmt>, s: Seq<(int, int)>, k: int) -> Seq<(int, int)>
    decreases k,
{
    if k <= 0 {
        s
    } else {
        astep(stmts[k - 1], transfer_upto(stmts, s, k - 1))
    }
}

/// The abstract effect of a block's statements.
pub open spec fn transfer_spec(stmts: Seq<Stmt>, s: Seq<(int, int)>) -> Seq<(int, int)> {
    transfer_upto(stmts, s, stmts.len() as int)
}

/// The concrete effect of one statement: `None` when an assumption fails
/// (the path is infeasible).
pub open spec fn cstep(st: Stmt, xs: Seq<int>) -> Option<Seq<int>> {
    match st {
        Stmt::Assign(v, e) => Some(xs.update(v as int, ceval(e, xs))),
        Stmt::Assume(v, op, k) => if constraint_holds(xs[v as int], op, k as int) {
            Some(xs)
        } else {
            None
        },
    }
}

/// The concrete effect of the first `k` statements.
pub open spec fn cexec_upto(stmts: Seq<Stmt>, xs: Seq<int>, k: int) -> Option<Seq<int>>
    decreases k,
{
    if k <= 0 {
        Some(xs)
    } else {
        match cexec_upto(stmts, xs, k - 1) {
            Some(ys) => cstep(stmts[k - 1], ys),
            None => None,
        }
    }
}

/// The concrete effect of a block's statements.
pub open spec fn cexec(stmts: Seq<Stmt>, xs: Seq<int>) -> Option<Seq<int>> {
    cexec_upto(stmts, xs, stmts.len() as int)
}

fn narrow(i: Interval, op: CmpOp, k: i64) -> (r: Interval)
    ensures
        r@ == iv_narrow(i@, op, k as int),
{
    if i.is_bottom() {
        return Interval::bottom();
    }
    let (lo, hi) = match op {
        CmpOp::Lt => (i.lo(), min_i64(i.hi(), sat_sub(k, 1))),
        CmpOp::Le => (i.lo(), min_i64(i.hi(), k)),
        CmpOp::Gt => (max_i64(i.lo(), sat_add(k, 1)), i.hi()),
        CmpOp::Ge => (max_i64(i.lo(), k), i.hi()),
        CmpOp::Eq => (max_i64(i.lo(), k), min_i64(i.hi(), k)),
    };
    if lo > hi {
        Interval::bottom()
    } else {
        Interval::new(lo, hi)
    }
}

/// Narrowing by a constraint keeps every concrete value that satisfies it.
pub proof fn lemma_narrow_sound(a: (int, int), op: CmpOp, k: int, x: int)
    requires
        iv_valid(a),
        i64::MIN <= k <= i64::MAX,
        gamma(a, x),
        constraint_holds(x, op, k),
    ensures
        gamma(iv_narrow(a, op, k), x),
        iv_valid(iv_narrow(a, op, k)),
{
}

/// Narrowing by a constraint adds no value outside the interval narrowed.
pub proof fn lemma_narrow_within(a: (int, int), op: CmpOp, k: int, x: int)
    requires
        gamma(iv_narrow(a, op, k), x),
    ensures
        gamma(a, x),
{
}

/// Narrowing by a constraint keeps only values that satisfy it: after
/// `assume(x <= k)` the upper bound is at most `k`, and so on for each
/// comparison.  The two saturated edges are left out: `x < i64::MIN` and
/// `x > i64::MAX` hold of no `i64`, and narrowing clamps the bound there
/// instead of emptying the interval.
pub proof fn lemma_narrow_keeps_constraint(a: (int, int), op: CmpOp, k: int, x: int)
    requires
        i64::MIN <= k <= i64::MAX,
        op == CmpOp::Lt ==> k > i64::MIN,
        op == CmpOp::Gt ==> k < i64::MAX,
        gamma(iv_narrow(a, op, k), x),
    ensures
        constraint_holds(x, op, k),
{
}

proof fn lemma_transfer_upto(stmts: Seq<Stmt>, s: Seq<(int, int)>, k: int)
    requires
        stmts_ok(stmts, s.len()),
        valid_state(s),
        0 <= k <= stmts.len(),
    ensures
        transfer_upto(stmts, s, k).len() == s.len(),
        valid_state(transfer_upto(stmts, s, k)),
    decreases k,
{
    if k > 0 {
        lemma_transfer_upto(stmts, s, k - 1);
        let prev = transfer_upto(stmts, s, k - 1);
        assert(stmt_ok(stmts[k - 1], s.len()));
        match stmts[k - 1] {
            Stmt::Assign(v, e) => {
                lemma_aeval_valid(e, prev);
            },
            Stmt::Assume(v, op, c) => {
                assert(iv_valid(prev[v as int]));
            },
        }
    }
}

/// Soundness of the transfer function: a concrete run of the first `k`
/// statements from a covered state ends in a state that the abstract
/// effect covers.
pub proof fn lemma_transfer_sound(stmts: Seq<Stmt>, s: Seq<(int, int)>, xs: Seq<int>, k: int)
    requires
        stmts_ok(stmts, s.len()),
        valid_state(s),
        in_state(s, xs),
        0 <= k <= stmts.len(),
        cexec_upto(stmts, xs, k) is Some,
    ensures
        in_state(transfer_upto(stmts, s, k), cexec_upto(stmts, xs, k)->0),
    decreases k,
{
    if k > 0 {
        lemma_transfer_sound(stmts, s, xs, k - 1);
        lemma_transfer_upto(stmts, s, k - 1);
        let prev = transfer_upto(stmts, s, k - 1);
        let ys = cexec_upto(stmts, xs, k - 1)->0;
        assert(stmt_ok(stmts[k - 1], s.len()));
        match stmts[k - 1] {
            Stmt::Assign(v, e) => {
                lemma_eval_sound(e, prev, ys);
                let out = prev.update(v as int, aeval(e, prev));
                let zs = ys.update(v as int, ceval(e, ys));
                assert forall|i: int| 0 <= i < out.len() implies gamma(#[trigger] out[i], zs[i]) by {
                    if i != v {
                        assert(gamma(prev[i], ys[i]));
                    }
                }
            },
            Stmt::Assume(v, op, c) => {
                assert(gamma(prev[v as int], ys[v as int]));
                lemma_narrow_sound(prev[v as int], op, c as int, ys[v as int]);
                let out = prev.update(v as int, iv_narrow(prev[v as int], op, c as int));
                assert forall|i: int| 0 <= i < out.len() implies gamma(#[trigger] out[i], ys[i]) by {
                    if i != v {
                        assert(gamma(prev[i], ys[i]));
                    }
                }
            },
        }
    }
}

/// A basic block: a straight-line sequence of statements with successor edges.
#[derive(Clone, Debug, PartialEq)]
pub struct Block {
    stmts: Vec<Stmt>,
    succ: Vec<usize>,
}

impl View for Block {
    type V = (Seq<Stmt>, Seq<usize>);

    closed spec fn view(&self) -> (Seq<Stmt>, Seq<usize>) {
        (self.stmts@, self.succ@)
    }
}

fn clone_stmts(stmts: &[Stmt]) -> (r: Vec<Stmt>)
    ensures
        r@ == stmts@,
{
    let mut r: Vec<Stmt> = Vec::new();
    let mut i: usize = 0;
    while i < stmts.len()
        invariant
            0 <= i <= stmts@.len(),
            r@ == stmts@.subrange(0, i as int),
        decreases stmts@.len() - i,
    {
        r.push(stmts[i].clone());
        i += 1;
    }
    r
}

impl Block {
    /// The statements of the block.
    pub fn stmts(&self) -> (r: &[Stmt])
        ensures
            r@ == self@.0,
    {
        self.stmts.as_slice()
    }

    /// The successor node indices.
    pub fn succ(&self) -> (r: &[usize])
        ensures
            r@ == self@.1,
    {
        self.succ.as_slice()
    }
}

/// A control-flow graph: a list of basic blocks indexed by node id.
#[derive(Clone, Debug)]
pub struct Cfg {
    blocks: Vec<Block>,
    nvars: usize,
}

impl Cfg {
    /// The blocks, each as its statements and successors.
    pub closed spec fn spec_blocks(&self) -> Seq<(Seq<Stmt>, Seq<usize>)> {
        self.blocks@.map_values(|b: Block| b@)
    }

    /// The number of variables.
    pub closed spec fn spec_nvars(&self) -> nat {
        self.nvars as nat
    }

    /// Every statement of every block uses only variables below `nvars`.
    pub open spec fn vars_ok(&self) -> bool {
        forall|b: int|
            0 <= b < self.spec_blocks().len() ==> stmts_ok(
                #[trigger] self.spec_blocks()[b].0,
                self.spec_nvars(),
            )
    }

    /// Create a CFG with `nvars` variables and no blocks.
    pub fn new(nvars: usize) -> (r: Cfg)
        ensures
            r.spec_blocks() == Seq::<(Seq<Stmt>, Seq<usize>)>::empty(),
            r.spec_nvars() == nvars,
    {
        let r = Cfg { blocks: Vec::new(), nvars };
        proof {
            assert(r.spec_blocks() =~= Seq::<(Seq<Stmt>, Seq<usize>)>::empty());
        }
        r
    }

    /// Number of variables in the abstract state.
    pub fn nvars(&self) -> (r: usize)
        ensures
            r == self.spec_nvars(),
    {
        self.nvars
    }

    /// Number of nodes.
    pub fn len(&self) -> (r: usize)
        ensures
            r == self.spec_blocks().len(),
    {
        self.blocks.len()
    }

    /// Whether the CFG has no nodes.
    pub fn is_empty(&self) -> (r: bool)
        ensures
            r == (self.spec_blocks().len() == 0),
    {
        self.blocks.len() == 0
    }

    /// Append a block with the given statements and successors; returns its id.
    pub fn block(&mut self, stmts: &[Stmt], succ: &[usize]) -> (r: usize)
        ensures
            final(self).spec_nvars() == old(self).spec_nvars(),
            final(self).spec_blocks() == old(self).spec_blocks().push((stmts@, succ@)),
            r == old(self).spec_blocks().len(),
    {
        let b = Block { stmts: clone_stmts(stmts), succ: vstd::slice::slice_to_vec(succ) };
        let ghost bv = b@;
        self.blocks.push(b);
        proof {
            assert(self.spec_blocks() =~= old(self).spec_blocks().push(bv));
        }
        self.blocks.len() - 1
    }

    /// Overwrite block `id` (used when ids must be deterministic).
    pub fn set_block(&mut self, id: usize, stmts: &[Stmt], succ: &[usize])
        requires
            id < old(self).spec_blocks().len(),
        ensures
            final(self).spec_nvars() == old(self).spec_nvars(),
            final(self).spec_blocks() == old(self).spec_blocks().update(id as int, (stmts@, succ@)),
    {
        let b = Block { stmts: clone_stmts(stmts), succ: vstd::slice::slice_to_vec(succ) };
        let ghost bv = b@;
        self.blocks.set(id, b);
        proof {
            assert(self.spec_blocks() =~= old(self).spec_blocks().update(id as int, bv));
        }
    }

    fn transfer(&self, node: usize, input: &[Interval]) -> (r: Vec<Interval>)
        requires
            node < self.spec_blocks().len(),
            stmts_ok(self.spec_blocks()[node as int].0, input@.len()),
        ensures
            ivs(r@) == transfer_spec(self.spec_blocks()[node as int].0, ivs(input@)),
    {
        let mut state = copy_intervals(input);
        let stmts = self.blocks[node].stmts();
        proof {
            assert(self.spec_blocks()[node as int] == self.blocks@[node as int]@);
        }
        let ghost s0 = ivs(input@);
        let mut i: usize = 0;
        while i < stmts.len()
            invariant
                0 <= i <= stmts@.len(),
                stmts_ok(stmts@, input@.len()),
                state@.len() == input@.len(),
                ivs(state@) == transfer_upto(stmts@, s0, i as int),
            decreases stmts@.len() - i,
        {
            assert(stmt_ok(stmts@[i as int], input@.len()));
            match &stmts[i] {
                Stmt::Assign(v, e) => {
                    let val = e.eval(state.as_slice());
                    state.set(*v, val);
                },
                Stmt::Assume(v, op, k) => {
                    let cur = state[*v];
                    proof {
                        assert(ivs(state@)[*v as int] == cur@);
                    }
                    state.set(*v, narrow(cur, *op, *k));
                },
            }
            proof {
                assert(ivs(state@) =~= transfer_upto(stmts@, s0, i + 1));
            }
            i += 1;
        }
        state
    }
}

/// The views of a sequence of abstract states.
pub open spec fn states_view(st: Seq<Vec<Interval>>) -> Seq<Seq<(int, int)>> {
    st.map_values(|v: Vec<Interval>| ivs(v@))
}

/// The edge `k` out of block `u` is accounted for: unless it leaves the
/// graph, the abstract effect of `u` on its state is included in the state
/// of the target.
pub open spec fn edge_covered(
    blocks: Seq<(Seq<Stmt>, Seq<usize>)>,
    entry: int,
    st: Seq<Seq<(int, int)>>,
    u: int,
    k: int,
) -> bool {
    let v = blocks[u].1[k] as int;
    v < blocks.len() ==> states_le(transfer_spec(blocks[u].0, st[u]), st[v])
}

/// `st` is a post-fixpoint of the analysis of `blocks` from `entry` with
/// initial state `init`: one state per block, of the width of `init`, the
/// entry state includes `init`, and every edge is covered.
pub open spec fn post_fixpoint(
    blocks: Seq<(Seq<Stmt>, Seq<usize>)>,
    entry: int,
    init: Seq<(int, int)>,
    st: Seq<Seq<(int, int)>>,
) -> bool {
    &&& st.len() == blocks.len()
    &&& 0 <= entry < blocks.len()
    &&& states_le(init, st[entry])
    &&& forall|i: int| 0 <= i < st.len() ==> (#[trigger] st[i]).len() == init.len()
    &&& forall|i: int| 0 <= i < st.len() ==> valid_state(#[trigger] st[i])
    &&& forall|u: int, k: int|
        0 <= u < blocks.len() && 0 <= k < blocks[u].1.len() ==> #[trigger] edge_covered(
            blocks,
            entry,
            st,
            u,
            k,
        )
}

/// Block `u` lists `v` among its successors.
pub open spec fn has_edge(blocks: Seq<(Seq<Stmt>, Seq<usize>)>, u: int, v: int) -> bool {
    exists|j: int| 0 <= j < blocks[u].1.len() && blocks[u].1[j] as int == v
}

/// A concrete run through the graph: it starts at `entry` in a state that
/// `init` covers, and each step runs the statements of the current block
/// (every assumption holding) and moves along one of its edges.
pub open spec fn concrete_run(
    blocks: Seq<(Seq<Stmt>, Seq<usize>)>,
    entry: int,
    init: Seq<(int, int)>,
    run: Seq<(int, Seq<int>)>,
) -> bool {
    &&& run.len() >= 1
    &&& run[0].0 == entry
    &&& in_state(init, run[0].1)
    &&& forall|k: int| 0 <= k < run.len() ==> 0 <= (#[trigger] run[k]).0 < blocks.len()
    &&& forall|k: int|
        0 < k < run.len() ==> has_edge(blocks, run[k - 1].0, (#[trigger] run[k]).0)
            && cexec(blocks[run[k - 1].0].0, run[k - 1].1) == Some(run[k].1)
}

/// Soundness of the analysis: along every concrete run that starts at the
/// entry block in a state covered by the initial abstract state, each
/// concrete state lies in the abstract state computed for its block.
pub proof fn lemma_analysis_sound(
    blocks: Seq<(Seq<Stmt>, Seq<usize>)>,
    entry: int,
    init: Seq<(int, int)>,
    st: Seq<Seq<(int, int)>>,
    run: Seq<(int, Seq<int>)>,
    k: int,
)
    requires
        forall|b: int| 0 <= b < blocks.len() ==> stmts_ok(#[trigger] blocks[b].0, init.len()),
        post_fixpoint(blocks, entry, init, st),
        concrete_run(blocks, entry, init, run),
        0 <= k < run.len(),
    ensures
        in_state(st[run[k].0], run[k].1),
    decreases k,
{
    if k == 0 {
        assert forall|i: int| 0 <= i < st[entry].len() implies gamma(#[trigger] st[entry][i], run[0].1[i]) by {
            assert(iv_le(init[i], st[entry][i]));
            assert(gamma(init[i], run[0].1[i]));
        }
    } else {
        lemma_analysis_sound(blocks, entry, init, st, run, k - 1);
        let prev = run[k - 1];
        let cur = run[k];
        assert(0 <= prev.0 < blocks.len());
        assert(0 <= cur.0 < blocks.len());
        assert(stmts_ok(blocks[prev.0].0, init.len()));
        lemma_run_step(blocks, entry, init, st, prev.0, cur.0, prev.1, cur.1);
    }
}

proof fn lemma_run_step(
    blocks: Seq<(Seq<Stmt>, Seq<usize>)>,
    entry: int,
    init: Seq<(int, int)>,
    st: Seq<Seq<(int, int)>>,
    u: int,
    v: int,
    xs: Seq<int>,
    ys: Seq<int>,
)
    requires
        stmts_ok(blocks[u].0, init.len()),
        post_fixpoint(blocks, entry, init, st),
        0 <= u < blocks.len(),
        0 <= v < blocks.len(),
        has_edge(blocks, u, v),
        cexec(blocks[u].0, xs) == Some(ys),
        in_state(st[u], xs),
    ensures
        in_state(st[v], ys),
{
    let j = choose|j: int| 0 <= j < blocks[u].1.len() && blocks[u].1[j] as int == v;
    assert(edge_covered(blocks, entry, st, u, j));
    assert(valid_state(st[u]));
    assert(st[u].len() == init.len());
    lemma_transfer_sound(blocks[u].0, st[u], xs, blocks[u].0.len() as int);
    let t = transfer_spec(blocks[u].0, st[u]);
    assert(blocks[u].1[j] as int == v);
    assert(states_le(t, st[v]));
    assert(in_state(t, ys));
    assert forall|i: int| 0 <= i < st[v].len() implies gamma(#[trigger] st[v][i], ys[i]) by {
        assert(iv_le(t[i], st[v][i]));
        assert(gamma(t[i], ys[i]));
    }
}

proof fn lemma_widen_states(a: Seq<(int, int)>, b: Seq<(int, int)>)
    requires
        a.len() == b.len(),
        valid_state(a),
        valid_state(b),
    ensures
        states_le(a, Seq::new(min_len(a.len(), b.len()), |i: int| iv_widen(a[i], b[i]))),
        states_le(b, Seq::new(min_len(a.len(), b.len()), |i: int| iv_widen(a[i], b[i]))),
{
    let w = Seq::new(min_len(a.len(), b.len()), |i: int| iv_widen(a[i], b[i]));
    assert forall|i: int| 0 <= i < a.len() implies iv_le(#[trigger] a[i], w[i]) && iv_le(
        b[i],
        w[i],
    ) by {
        assert(iv_valid(a[i]));
        assert(iv_valid(b[i]));
    }
}

/// The worklist invariant: the entry block's state includes `init`, and
/// every edge out of a block that is not queued is covered.
spec fn worklist_inv(
    blocks: Seq<(Seq<Stmt>, Seq<usize>)>,
    entry: int,
    init: Seq<(int, int)>,
    st: Seq<Seq<(int, int)>>,
    work: Seq<usize>,
) -> bool {
    &&& states_le(init, st[entry])
    &&& forall|u: int, k: int|
        0 <= u < blocks.len() && 0 <= k < blocks[u].1.len() && !work.contains(u as usize)
            ==> #[trigger] edge_covered(blocks, entry, st, u, k)
}

/// One round of the worklist loop keeps the invariant: `node` was taken
/// off the list, given `in_v` (which covers every incoming edge, and
/// includes `init` at the entry), and its effect `exit_v` was merged into
/// each successor, queueing every block whose state changed.
proof fn lemma_round_keeps_inv(
    blocks: Seq<(Seq<Stmt>, Seq<usize>)>,
    entry: int,
    init: Seq<(int, int)>,
    s0: Seq<Seq<(int, int)>>,
    w0: Seq<usize>,
    node: int,
    in_v: Seq<(int, int)>,
    s_mid: Seq<Seq<(int, int)>>,
    w_mid: Seq<usize>,
    exit_v: Seq<(int, int)>,
    s1: Seq<Seq<(int, int)>>,
    w1: Seq<usize>,
)
    requires
        blocks.len() <= usize::MAX,
        0 <= entry < blocks.len(),
        0 <= node < blocks.len(),
        s0.len() == blocks.len(),
        s1.len() == blocks.len(),
        worklist_inv(blocks, entry, init, s0, w0),
        w0 == w_mid.push(node as usize),
        s_mid == s0.update(node, in_v),
        node == entry ==> states_le(init, in_v),
        forall|u: int, k: int|
            0 <= u < blocks.len() && 0 <= k < blocks[u].1.len() && blocks[u].1[k] as int == node
                ==> states_le(#[trigger] transfer_spec(blocks[u].0, s0[u]), in_v) && #[trigger] blocks[u].1[k] == blocks[u].1[k],
        exit_v == transfer_spec(blocks[node].0, in_v),
        forall|i: int| 0 <= i < blocks.len() ==> states_le(#[trigger] s_mid[i], s1[i]),
        forall|i: int| 0 <= i < blocks.len() && s1[i] != s_mid[i] ==> w1.contains(#[trigger] (i as usize)),
        forall|x: usize| w_mid.contains(x) ==> #[trigger] w1.contains(x),
        forall|k: int|
            0 <= k < blocks[node].1.len() && (blocks[node].1[k] as int) < blocks.len() ==> states_le(
                exit_v,
                s1[#[trigger] blocks[node].1[k] as int],
            ),
    ensures
        worklist_inv(blocks, entry, init, s1, w1),
{
    assert(states_le(init, s_mid[entry]));
    lemma_states_le_trans(init, s_mid[entry], s1[entry]);
    assert forall|u: int, k: int|
        0 <= u < blocks.len() && 0 <= k < blocks[u].1.len() && !w1.contains(
            u as usize,
        ) implies #[trigger] edge_covered(blocks, entry, s1, u, k) by {
        let v = blocks[u].1[k] as int;
        if v < blocks.len() {
            assert(s1[u] == s_mid[u]);
            if u == node {
                assert(states_le(exit_v, s1[v]));
            } else {
                assert(!w_mid.contains(u as usize));
                assert(!w0.contains(u as usize));
                assert(edge_covered(blocks, entry, s0, u, k));
                let t = transfer_spec(blocks[u].0, s0[u]);
                assert(states_le(t, s0[v]));
                if v == node {
                    assert(blocks[u].1[k] == blocks[u].1[k]);
                    assert(states_le(t, in_v));
                    lemma_states_le_trans(t, in_v, s1[v]);
                } else {
                    assert(s_mid[v] == s0[v]);
                    lemma_states_le_trans(t, s0[v], s1[v]);
                }
            }
        }
    }
}

/// The views of a list of predecessor lists.
pub open spec fn preds_view(p: Seq<Vec<usize>>) -> Seq<Seq<usize>> {
    p.map_values(|v: Vec<usize>| v@)
}

/// Two abstract states widened pointwise.
pub open spec fn widen_states(a: Seq<(int, int)>, b: Seq<(int, int)>) -> Seq<(int, int)> {
    Seq::new(min_len(a.len(), b.len()), |i: int| iv_widen(a[i], b[i]))
}

/// `n` abstract states of `nv` variables, each interval the full `i64` range.
pub open spec fn top_states(n: nat, nv: nat) -> Seq<Seq<(int, int)>> {
    Seq::new(n, |b: int| Seq::new(nv, |i: int| (i64::MIN as int, i64::MAX as int)))
}

/// The predecessor lists `p` after recording the first `k` edges out of
/// block `u` (those that stay in a graph of `n` blocks), in order.
pub open spec fn preds_after_edges(n: int, p: Seq<Seq<usize>>, u: int, succ: Seq<usize>, k: int) -> Seq<Seq<usize>>
    decreases k,
{
    if k <= 0 {
        p
    } else {
        let p2 = preds_after_edges(n, p, u, succ, k - 1);
        let v = succ[k - 1] as int;
        if v < n {
            p2.update(v, p2[v].push(u as usize))
        } else {
            p2
        }
    }
}

/// The predecessor lists after recording the edges of blocks `0..u`.
pub open spec fn preds_upto(blocks: Seq<(Seq<Stmt>, Seq<usize>)>, u: int) -> Seq<Seq<usize>>
    decreases u,
{
    if u <= 0 {
        Seq::new(blocks.len(), |i: int| Seq::<usize>::empty())
    } else {
        preds_after_edges(blocks.len() as int, preds_upto(blocks, u - 1), u - 1, blocks[u - 1].1, blocks[u - 1].1.len() as int)
    }
}

/// The input state built from `start` by widening with the effect of the
/// first `j` predecessors `ps` on their states in `st`, in order.
pub open spec fn fold_in(
    blocks: Seq<(Seq<Stmt>, Seq<usize>)>,
    st: Seq<Seq<(int, int)>>,
    ps: Seq<usize>,
    start: Seq<(int, int)>,
    j: int,
) -> Seq<(int, int)>
    decreases j,
{
    if j <= 0 {
        start
    } else {
        let p = ps[j - 1] as int;
        widen_states(fold_in(blocks, st, ps, start, j - 1), transfer_spec(blocks[p].0, st[p]))
    }
}

/// Merging the exit state `exit` into the first `k` successors `succ` in
/// order: a successor whose state the widening changes takes the widened
/// state and is queued again.
pub open spec fn merge_succ(
    n: int,
    st: Seq<Seq<(int, int)>>,
    work: Seq<usize>,
    exit: Seq<(int, int)>,
    succ: Seq<usize>,
    k: int,
) -> (Seq<Seq<(int, int)>>, Seq<usize>)
    decreases k,
{
    if k <= 0 {
        (st, work)
    } else {
        let prev = merge_succ(n, st, work, exit, succ, k - 1);
        let v = succ[k - 1] as int;
        if v < n {
            let m = widen_states(prev.0[v], exit);
            if m != prev.0[v] {
                (prev.0.update(v, m), prev.1.push(v as usize))
            } else {
                prev
            }
        } else {
            prev
        }
    }
}

/// One round of the worklist: take the last queued block, rebuild its input
/// state from its predecessors (starting from `init` at the entry and from
/// `bottom` elsewhere), and merge its exit state into its successors.
pub open spec fn wl_round(
    blocks: Seq<(Seq<Stmt>, Seq<usize>)>,
    entry: int,
    init: Seq<(int, int)>,
    bottom: Seq<(int, int)>,
    preds: Seq<Seq<usize>>,
    st: Seq<Seq<(int, int)>>,
    work: Seq<usize>,
) -> (Seq<Seq<(int, int)>>, Seq<usize>) {
    let node = work.last() as int;
    let start = if node == entry { init } else { bottom };
    let in_v = fold_in(blocks, st, preds[node], start, preds[node].len() as int);
    merge_succ(
        blocks.len() as int,
        st.update(node, in_v),
        work.drop_last(),
        transfer_spec(blocks[node].0, in_v),
        blocks[node].1,
        blocks[node].1.len() as int,
    )
}

/// The worklist iteration with at most `fuel` rounds: the states once the
/// list is empty, the coarsest states if the rounds run out first.
pub open spec fn wl_iterate(
    blocks: Seq<(Seq<Stmt>, Seq<usize>)>,
    entry: int,
    init: Seq<(int, int)>,
    bottom: Seq<(int, int)>,
    preds: Seq<Seq<usize>>,
    st: Seq<Seq<(int, int)>>,
    work: Seq<usize>,
    fuel: nat,
) -> Seq<Seq<(int, int)>>
    decreases fuel,
{
    if work.len() == 0 {
        st
    } else if fuel == 0 {
        top_states(blocks.len(), init.len())
    } else {
        let next = wl_round(blocks, entry, init, bottom, preds, st, work);
        wl_iterate(blocks, entry, init, bottom, preds, next.0, next.1, (fuel - 1) as nat)
    }
}

/// The states the analysis computes: every block starts at bottom (the
/// entry at `init`), every block is queued in order, and the worklist runs
/// with widening at every merge.
pub open spec fn analysis(
    blocks: Seq<(Seq<Stmt>, Seq<usize>)>,
    entry: int,
    init: Seq<(int, int)>,
) -> Seq<Seq<(int, int)>> {
    let n = blocks.len();
    wl_iterate(
        blocks,
        entry,
        init,
        bottoms(init.len()),
        preds_upto(blocks, n as int),
        start_states(n, entry, init, bottoms(init.len())),
        all_blocks(n),
        u64::MAX as nat,
    )
}

/// `nv` bottom intervals.
pub open spec fn bottoms(nv: nat) -> Seq<(int, int)> {
    Seq::new(nv, |i: int| bot())
}

/// `n` states: `init` at the entry, `bottom` elsewhere.
pub open spec fn start_states(n: nat, entry: int, init: Seq<(int, int)>, bottom: Seq<(int, int)>) -> Seq<Seq<(int, int)>> {
    Seq::new(n, |b: int| if b == entry { init } else { bottom })
}

/// The blocks `0..n` in order.
pub open spec fn all_blocks(n: nat) -> Seq<usize> {
    Seq::new(n, |b: int| b as usize)
}

/// The coarsest solution: every interval of every block the full `i64`
/// range. It includes `init` and covers every edge, since each abstract
/// state of `i64` bounds is included in the full range.
fn top_solution(cfg: &Cfg, entry: usize, init: &Vec<Interval>) -> (r: Vec<Vec<Interval>>)
    requires
        cfg.vars_ok(),
        entry < cfg.spec_blocks().len(),
        init@.len() == cfg.spec_nvars(),
    ensures
        post_fixpoint(cfg.spec_blocks(), entry as int, ivs(init@), states_view(r@)),
        states_view(r@) == top_states(cfg.spec_blocks().len(), init@.len()),
{
    let n = cfg.len();
    let nv = cfg.nvars();
    let ghost blocks = cfg.spec_blocks();
    let ghost topv = (i64::MIN as int, i64::MAX as int);
    let mut top: Vec<Interval> = Vec::new();
    while top.len() < nv
        invariant
            top@.len() <= nv,
            topv == (i64::MIN as int, i64::MAX as int),
            forall|x: int| 0 <= x < top@.len() ==> (#[trigger] top@[x])@ == topv,
        decreases nv - top@.len(),
    {
        let t = Interval { lo: i64::MIN, hi: i64::MAX };
        top.push(t);
    }
    let mut st: Vec<Vec<Interval>> = Vec::new();
    while st.len() < n
        invariant
            n == blocks.len(),
            entry < n,
            st@.len() <= n,
            top@.len() == nv,
            topv == (i64::MIN as int, i64::MAX as int),
            forall|x: int| 0 <= x < top@.len() ==> (#[trigger] top@[x])@ == topv,
            forall|x: int| 0 <= x < st@.len() ==> (#[trigger] st@[x])@ == top@,
        decreases n - st@.len(),
    {
        st.push(copy_intervals(top.as_slice()));
    }
    proof {
        let tv = top_states(n as nat, nv as nat);
        assert forall|b: int| 0 <= b < n implies #[trigger] states_view(st@)[b] == tv[b] by {
            assert(states_view(st@)[b] == ivs(st@[b]@));
            assert(ivs(st@[b]@) =~= tv[b]);
        }
        assert(states_view(st@) =~= tv);
    }
    proof {
        let sv = states_view(st@);
        let iv = ivs(init@);
        lemma_ivs_valid(init@);
        lemma_ivs_valid(top@);
        assert(sv[entry as int] == ivs(top@));
        assert forall|i: int| 0 <= i < iv.len() implies iv_le(#[trigger] iv[i], sv[entry as int][i]) by {
            assert(sv[entry as int][i] == top@[i]@);
            assert(iv_valid(iv[i]));
        }
        assert forall|i: int| 0 <= i < sv.len() implies (#[trigger] sv[i]).len() == iv.len() && valid_state(sv[i]) by {
            lemma_ivs_valid(st@[i]@);
        }
        assert forall|u: int, k: int|
            0 <= u < blocks.len() && 0 <= k < blocks[u].1.len() implies #[trigger] edge_covered(blocks, entry as int, sv, u, k) by {
            let v = blocks[u].1[k] as int;
            if v < blocks.len() {
                lemma_ivs_valid(st@[u]@);
                assert(stmts_ok(blocks[u].0, nv as nat));
                lemma_transfer_upto(blocks[u].0, sv[u], blocks[u].0.len() as int);
                let t = transfer_spec(blocks[u].0, sv[u]);
                assert(sv[v] == ivs(st@[v]@));
                assert(st@[v]@ == top@);
                assert forall|i: int| 0 <= i < t.len() implies iv_le(#[trigger] t[i], sv[v][i]) by {
                    assert(sv[v][i] == top@[i]@);
                    assert(iv_valid(t[i]));
                }
            }
        }
    }
    st
}

/// Analyze a CFG, returning the entry abstract state for every node.
///
/// Uses a worklist fixpoint with widening at every merge; the entry block
/// starts from `init` and also takes in whatever flows back into it. Returns
/// `None` if `entry` is out of bounds or `init` does not have one interval
/// per variable. The result is a post-fixpoint: the entry block's state
/// includes `init`, and the abstract effect of every block is included in
/// the state of each successor (see [`lemma_analysis_sound`] for what this
/// says of concrete runs). The states are exactly those of [`analysis`],
/// the worklist iteration written out: should the loop still run after
/// `u64::MAX` rounds, it stops with the coarsest solution (the full range
/// everywhere).
pub fn analyze(cfg: &Cfg, entry: usize, init: Vec<Interval>) -> (r: Option<Vec<Vec<Interval>>>)
    requires
        cfg.vars_ok(),
    ensures
        r is None <==> (entry >= cfg.spec_blocks().len() || init@.len() != cfg.spec_nvars()),
        r matches Some(st) ==> post_fixpoint(
            cfg.spec_blocks(),
            entry as int,
            ivs(init@),
            states_view(st@),
        ),
        r matches Some(st) ==> states_view(st@) == analysis(cfg.spec_blocks(), entry as int, ivs(init@)),
{
    if entry >= cfg.len() || init.len() != cfg.nvars() {
        return None;
    }
    let n = cfg.len();
    let nv = cfg.nvars();
    let ghost blocks = cfg.spec_blocks();
    let ghost iv = ivs(init@);
    proof {
        lemma_ivs_valid(init@);
    }
    let mut bottom: Vec<Interval> = Vec::new();
    let mut i: usize = 0;
    while i < nv
        invariant
            i <= nv,
            bottom@.len() == i,
            forall|x: int| 0 <= x < i ==> (#[trigger] bottom@[x])@ == bot(),
        decreases nv - i,
    {
        bottom.push(Interval::bottom());
        i += 1;
    }
    let ghost bv = Seq::new(nv as nat, |x: int| bot());
    proof {
        assert(ivs(bottom@) =~= bv);
    }
    let mut state: Vec<Vec<Interval>> = Vec::new();
    i = 0;
    while i < n
        invariant
            i <= n,
            bottom@.len() == nv,
            state@.len() == i,
            forall|x: int| 0 <= x < i ==> (#[trigger] state@[x])@.len() == nv,
            forall|x: int| 0 <= x < i ==> (#[trigger] state@[x])@ == bottom@,
        decreases n - i,
    {
        state.push(copy_intervals(bottom.as_slice()));
        i += 1;
    }
    state.set(entry, copy_intervals(init.as_slice()));
    let ghost st_start = states_view(state@);
    proof {
        assert(st_start =~= Seq::new(n as nat, |b: int| if b == entry { iv } else { bv }));
    }
    // Predecessors.
    let mut preds: Vec<Vec<usize>> = Vec::new();
    i = 0;
    while i < n
        invariant
            i <= n,
            preds@.len() == i,
            forall|x: int, j: int| 0 <= x < i && 0 <= j < preds@[x]@.len() ==> #[trigger] preds@[x]@[j] < n,
            forall|x: int| 0 <= x < i ==> (#[trigger] preds@[x])@.len() == 0,
        decreases n - i,
    {
        preds.push(Vec::new());
        i += 1;
    }
    proof {
        assert forall|x: int| 0 <= x < n implies #[trigger] preds_view(preds@)[x] =~= Seq::<usize>::empty() by {}
        assert(preds_view(preds@) =~= preds_upto(blocks, 0));
    }
    let mut u: usize = 0;
    while u < n
        invariant
            u <= n,
            n == blocks.len(),
            blocks == cfg.spec_blocks(),
            preds@.len() == n,
            preds_view(preds@) == preds_upto(blocks, u as int),
            forall|x: int, j: int| 0 <= x < n && 0 <= j < preds@[x]@.len() ==> #[trigger] preds@[x]@[j] < n,
            forall|uu: int, kk: int|
                0 <= uu < u && 0 <= kk < blocks[uu].1.len() && (blocks[uu].1[kk] as int) < n
                    ==> preds@[#[trigger] blocks[uu].1[kk] as int]@.contains(uu as usize),
        decreases n - u,
    {
        let succ = cfg.blocks[u].succ();
        proof {
            assert(blocks[u as int] == cfg.blocks@[u as int]@);
        }
        let mut k: usize = 0;
        while k < succ.len()
            invariant
                u < n,
                k <= succ@.len(),
                succ@ == blocks[u as int].1,
                n == blocks.len(),
                preds@.len() == n,
                preds_view(preds@) == preds_after_edges(n as int, preds_upto(blocks, u as int), u as int, succ@, k as int),
                forall|x: int, j: int| 0 <= x < n && 0 <= j < preds@[x]@.len() ==> #[trigger] preds@[x]@[j] < n,
                forall|uu: int, kk: int|
                    0 <= uu < u && 0 <= kk < blocks[uu].1.len() && (blocks[uu].1[kk] as int) < n
                        ==> preds@[#[trigger] blocks[uu].1[kk] as int]@.contains(uu as usize),
                forall|kk: int|
                    0 <= kk < k && (succ@[kk] as int) < n ==> preds@[#[trigger] succ@[kk] as int]@.contains(
                        u,
                    ),
            decreases succ@.len() - k,
        {
            let v = succ[k];
            if v < n {
                let ghost p0 = preds@;
                preds[v].push(u);
                proof {
                    assert(preds_view(preds@) =~= preds_view(p0).update(v as int, preds_view(p0)[v as int].push(u)));
                    assert(preds@[v as int]@ == p0[v as int]@.push(u));
                    assert(preds@[v as int]@.last() == u);
                    assert forall|x: int| 0 <= x < n && x != v implies preds@[x] == p0[x] by {}
                    assert forall|x: int, c: usize| 0 <= x < n && #[trigger] p0[x]@.contains(c) implies preds@[x]@.contains(c) by {
                        if x == v {
                            let j = choose|j: int| 0 <= j < p0[x]@.len() && p0[x]@[j] == c;
                            assert(preds@[x]@[j] == c);
                        }
                    }
                }
            }
            k += 1;
        }
        proof {
            assert(preds_view(preds@) == preds_upto(blocks, u + 1));
        }
        u += 1;
    }
    let ghost pvv = preds_view(preds@);
    let mut work: Vec<usize> = Vec::new();
    i = 0;
    while i < n
        invariant
            i <= n,
            work@.len() == i,
            forall|x: int| 0 <= x < i ==> #[trigger] work@[x] == x as usize,
        decreases n - i,
    {
        work.push(i);
        i += 1;
    }
    proof {
        assert forall|x: int| 0 <= x < n implies work@.contains(#[trigger] (x as usize)) by {
            assert(work@[x] == x as usize);
        }
        assert(work@ =~= Seq::new(n as nat, |b: int| b as usize));
        assert(pvv == preds_upto(blocks, n as int));
        assert(iv.len() == nv);
        assert(bv =~= Seq::new(iv.len(), |x: int| bot()));
        assert(states_view(state@) == st_start);
        let bz = bottoms(iv.len());
        let target = start_states(blocks.len(), entry as int, iv, bz);
        assert(bv =~= bz);
        assert(st_start.len() == target.len());
        assert forall|b: int| 0 <= b < target.len() implies #[trigger] st_start[b] == target[b] by {
            if b != entry as int {
                assert(st_start[b] == bv);
            }
        }
        assert(st_start =~= target);
        assert(work@ =~= all_blocks(blocks.len()));
        assert(wl_iterate(blocks, entry as int, iv, bv, pvv, states_view(state@), work@, u64::MAX as nat)
            == analysis(blocks, entry as int, iv));
    }
    let mut fuel: u64 = u64::MAX;
    while work.len() > 0
        invariant
            n == blocks.len(),
            n <= usize::MAX,
            blocks == cfg.spec_blocks(),
            cfg.vars_ok(),
            nv == cfg.spec_nvars(),
            entry < n,
            iv == ivs(init@),
            init@.len() == nv,
            bottom@.len() == nv,
            state@.len() == n,
            preds@.len() == n,
            forall|x: int| 0 <= x < n ==> (#[trigger] state@[x])@.len() == nv,
            forall|x: int, j: int| 0 <= x < n && 0 <= j < preds@[x]@.len() ==> #[trigger] preds@[x]@[j] < n,
            forall|uu: int, kk: int|
                0 <= uu < n && 0 <= kk < blocks[uu].1.len() && (blocks[uu].1[kk] as int) < n
                    ==> preds@[#[trigger] blocks[uu].1[kk] as int]@.contains(uu as usize),
            forall|j: int| 0 <= j < work@.len() ==> #[trigger] work@[j] < n,
            worklist_inv(blocks, entry as int, iv, states_view(state@), work@),
            ivs(bottom@) == bv,
            bv == Seq::new(nv as nat, |x: int| bot()),
            preds_view(preds@) == pvv,
            wl_iterate(blocks, entry as int, iv, bv, pvv, states_view(state@), work@, fuel as nat)
                == analysis(blocks, entry as int, iv),
        decreases fuel,
    {
        if fuel == 0 {
            let top = top_solution(cfg, entry, &init);
            return Some(top);
        }
        fuel = fuel - 1;
        let ghost s0 = states_view(state@);
        let ghost w0 = work@;
        let node = work.pop().unwrap();
        let ghost w_mid = work@;
        proof {
            assert(w0 == w_mid.push(node));
            assert(w0[w0.len() - 1] == node);
        }
        let in_state = {
            let mut acc = if node == entry {
                copy_intervals(init.as_slice())
            } else {
                copy_intervals(bottom.as_slice())
            };
            let ghost start = if node == entry { iv } else { bv };
            let ghost ps = pvv[node as int];
            proof {
                lemma_ivs_valid(init@);
                assert(node == entry ==> states_le(iv, ivs(acc@)));
                assert(ps == preds@[node as int]@);
            }
            let mut j: usize = 0;
            while j < preds[node].len()
                invariant
                    n == blocks.len(),
                    blocks == cfg.spec_blocks(),
                    cfg.vars_ok(),
                    nv == cfg.spec_nvars(),
                    node < n,
                    state@.len() == n,
                    preds@.len() == n,
                    s0 == states_view(state@),
                    acc@.len() == nv,
                    iv == ivs(init@),
                    node == entry ==> states_le(iv, ivs(acc@)),
                    ps == preds@[node as int]@,
                    ivs(acc@) == fold_in(blocks, s0, ps, start, j as int),
                    j <= preds@[node as int]@.len(),
                    forall|x: int| 0 <= x < n ==> (#[trigger] state@[x])@.len() == nv,
                    forall|x: int, jj: int| 0 <= x < n && 0 <= jj < preds@[x]@.len() ==> #[trigger] preds@[x]@[jj] < n,
                    forall|jj: int|
                        0 <= jj < j ==> states_le(
                            transfer_spec(
                                blocks[#[trigger] preds@[node as int]@[jj] as int].0,
                                s0[preds@[node as int]@[jj] as int],
                            ),
                            ivs(acc@),
                        ),
                decreases preds@[node as int]@.len() - j,
            {
                let p = preds[node][j];
                assert(p < n);
                assert(stmts_ok(blocks[p as int].0, nv as nat));
                let exit = cfg.transfer(p, state[p].as_slice());
                let ghost old_acc = ivs(acc@);
                proof {
                    assert(s0[p as int] == ivs(state@[p as int]@));
                    lemma_ivs_valid(acc@);
                    lemma_ivs_valid(exit@);
                    lemma_transfer_upto(blocks[p as int].0, s0[p as int], blocks[p as int].0.len() as int);
                }
                acc = acc.widen(&exit);
                proof {
                    lemma_widen_states(old_acc, ivs(exit@));
                    assert(ivs(acc@) =~= Seq::new(
                        min_len(old_acc.len(), ivs(exit@).len()),
                        |i: int| iv_widen(old_acc[i], ivs(exit@)[i]),
                    ));
                    if node == entry {
                        lemma_states_le_trans(iv, old_acc, ivs(acc@));
                    }
                    assert(ps[j as int] == p);
                    assert(ivs(acc@) =~= fold_in(blocks, s0, ps, start, j + 1));
                    assert forall|jj: int| 0 <= jj < j + 1 implies states_le(
                        transfer_spec(
                            blocks[#[trigger] preds@[node as int]@[jj] as int].0,
                            s0[preds@[node as int]@[jj] as int],
                        ),
                        ivs(acc@),
                    ) by {
                        if jj < j {
                            lemma_states_le_trans(
                                transfer_spec(
                                    blocks[preds@[node as int]@[jj] as int].0,
                                    s0[preds@[node as int]@[jj] as int],
                                ),
                                old_acc,
                                ivs(acc@),
                            );
                        }
                    }
                }
                j += 1;
            }
            proof {
                assert forall|uu: int, kk: int|
                    0 <= uu < n && 0 <= kk < blocks[uu].1.len() && blocks[uu].1[kk] as int == node
                        implies states_le(#[trigger] transfer_spec(blocks[uu].0, s0[uu]), ivs(acc@))
                        && #[trigger] blocks[uu].1[kk] == blocks[uu].1[kk] by {
                    assert(preds@[blocks[uu].1[kk] as int]@.contains(uu as usize));
                    let jj = choose|jj: int|
                        0 <= jj < preds@[node as int]@.len() && preds@[node as int]@[jj] == uu as usize;
                    assert(preds@[node as int]@[jj] == uu as usize);
                }
            }
            acc
        };
        let ghost in_v = ivs(in_state@);
        proof {
            assert(in_v == fold_in(blocks, s0, pvv[node as int], if node == entry { iv } else { bv },
                pvv[node as int].len() as int));
        }
        state.set(node, copy_intervals(in_state.as_slice()));
        let ghost s_mid = states_view(state@);
        proof {
            assert(s_mid =~= s0.update(node as int, in_v));
        }
        assert(stmts_ok(blocks[node as int].0, nv as nat));
        let exit = cfg.transfer(node, in_state.as_slice());
        let ghost exit_v = ivs(exit@);
        proof {
            lemma_ivs_valid(exit@);
            lemma_ivs_valid(in_state@);
            lemma_transfer_upto(blocks[node as int].0, in_v, blocks[node as int].0.len() as int);
            assert(exit_v.len() == exit@.len());
        }
        let succ = cfg.blocks[node].succ();
        proof {
            assert(blocks[node as int] == cfg.blocks@[node as int]@);
        }
        let mut k: usize = 0;
        proof {
            assert(exit_v == transfer_spec(blocks[node as int].0, in_v));
        }
        while k < succ.len()
            invariant
                n == blocks.len(),
                k <= succ@.len(),
                succ@ == blocks[node as int].1,
                state@.len() == n,
                (states_view(state@), work@) == merge_succ(n as int, s_mid, w_mid, exit_v, succ@, k as int),
                exit@.len() == nv,
                exit_v == ivs(exit@),
                valid_state(exit_v),
                forall|x: int| 0 <= x < n ==> (#[trigger] state@[x])@.len() == nv,
                forall|j: int| 0 <= j < work@.len() ==> #[trigger] work@[j] < n,
                forall|x: int| 0 <= x < n ==> states_le(#[trigger] s_mid[x], states_view(state@)[x]),
                forall|x: int|
                    0 <= x < n && states_view(state@)[x] != s_mid[x] ==> work@.contains(
                        #[trigger] (x as usize),
                    ),
                forall|x: usize| w_mid.contains(x) ==> #[trigger] work@.contains(x),
                forall|kk: int|
                    0 <= kk < k && (succ@[kk] as int) < n ==> states_le(
                        exit_v,
                        states_view(state@)[#[trigger] succ@[kk] as int],
                    ),
            decreases succ@.len() - k,
        {
            let sv = succ[k];
            if sv < n {
                let ghost sb = states_view(state@);
                proof {
                    lemma_ivs_valid(state@[sv as int]@);
                    assert(sb[sv as int] == ivs(state@[sv as int]@));
                }
                let merged = state[sv].widen(&exit);
                proof {
                    lemma_widen_states(sb[sv as int], exit_v);
                    assert(ivs(merged@) =~= Seq::new(
                        min_len(sb[sv as int].len(), exit_v.len()),
                        |i: int| iv_widen(sb[sv as int][i], exit_v[i]),
                    ));
                }
                proof {
                    assert(ivs(merged@) == widen_states(sb[sv as int], exit_v));
                }
                if !same_intervals(&merged, &state[sv]) {
                    let ghost wb = work@;
                    state.set(sv, merged);
                    work.push(sv);
                    proof {
                        assert(states_view(state@) =~= sb.update(sv as int, ivs(merged@)));
                        assert((states_view(state@), work@) == merge_succ(n as int, s_mid, w_mid, exit_v, succ@, k + 1));
                        assert(work@[wb.len() as int] == sv);
                        assert(work@.contains(sv));
                        assert forall|x: usize| wb.contains(x) implies #[trigger] work@.contains(x) by {
                            let j = choose|j: int| 0 <= j < wb.len() && wb[j] == x;
                            assert(work@[j] == x);
                        }
                        assert forall|x: int| 0 <= x < n implies states_le(
                            #[trigger] s_mid[x],
                            states_view(state@)[x],
                        ) by {
                            if x == sv {
                                lemma_states_le_trans(s_mid[x], sb[x], ivs(merged@));
                            }
                        }
                        assert forall|kk: int|
                            0 <= kk < k + 1 && (succ@[kk] as int) < n implies states_le(
                            exit_v,
                            states_view(state@)[#[trigger] succ@[kk] as int],
                        ) by {
                            if succ@[kk] != sv {
                                assert(states_view(state@)[succ@[kk] as int] == sb[succ@[kk] as int]);
                            }
                        }
                    }
                } else {
                    proof {
                        assert(states_le(exit_v, sb[sv as int]));
                        assert((states_view(state@), work@) == merge_succ(n as int, s_mid, w_mid, exit_v, succ@, k + 1));
                    }
                }
            }
            k += 1;
        }
        proof {
            assert(w0.last() == node);
            assert(w0.drop_last() =~= w_mid);
            assert(succ@.len() == blocks[node as int].1.len());
            assert((states_view(state@), work@) == wl_round(blocks, entry as int, iv, bv, pvv, s0, w0));
        }
        proof {
            lemma_round_keeps_inv(
                blocks,
                entry as int,
                iv,
                s0,
                w0,
                node as int,
                in_v,
                s_mid,
                w_mid,
                exit_v,
                states_view(state@),
                work@,
            );
        }
    }
    proof {
        let st = states_view(state@);
        assert forall|x: int| 0 <= x < st.len() implies valid_state(#[trigger] st[x]) by {
            lemma_ivs_valid(state@[x]@);
        }
        assert(!work@.contains(entry));
    }
    Some(state)
}

} // verus!
