//! Redundancy / fault-tolerance primitives.
//!
//! These are the building blocks of fault-tolerant systems: take several
//! copies of a value or computation and *vote* on the correct result so a
//! single faulty replica cannot corrupt the output.
use vstd::prelude::*;
use crate::structural_eq;
use vstd::std_specs::cmp::PartialEqSpec;

verus! {

/// The number of positions among the first `j` of `s` that hold `x`.
pub open spec fn count_upto<T>(s: Seq<T>, x: T, j: int) -> nat
    decreases j,
{
    if j <= 0 {
        0
    } else {
        count_upto(s, x, j - 1) + if s[j - 1] == x {
            1nat
        } else {
            0nat
        }
    }
}

/// The number of votes for `x` in `s`.
pub open spec fn count<T>(s: Seq<T>, x: T) -> nat {
    count_upto(s, x, s.len() as int)
}

/// `x` is voted for by a strict majority of `s`.
pub open spec fn has_majority<T>(s: Seq<T>, x: T) -> bool {
    count(s, x) >= s.len() / 2 + 1
}

/// The value that a strict majority of `s` agrees on, if there is one.
pub open spec fn majority_spec<T>(s: Seq<T>) -> Option<T> {
    if exists|x: T| has_majority(s, x) {
        Some(choose|x: T| has_majority(s, x))
    } else {
        None
    }
}

proof fn lemma_count_upto_bound<T>(s: Seq<T>, x: T, y: T, j: int)
    requires
        x != y,
        0 <= j <= s.len(),
    ensures
        count_upto(s, x, j) + count_upto(s, y, j) <= j,
    decreases j,
{
    if j > 0 {
        lemma_count_upto_bound(s, x, y, j - 1);
    }
}

proof fn lemma_count_upto_total<T>(s: Seq<T>, x: T, y: T, j: int)
    requires
        x != y,
        0 <= j <= s.len(),
        forall|i: int| 0 <= i < s.len() ==> s[i] == x || s[i] == y,
    ensures
        count_upto(s, x, j) + count_upto(s, y, j) == j,
    decreases j,
{
    if j > 0 {
        lemma_count_upto_total(s, x, y, j - 1);
    }
}

proof fn lemma_count_positive<T>(s: Seq<T>, x: T, j: int)
    requires
        0 <= j <= s.len(),
        count_upto(s, x, j) > 0,
    ensures
        exists|i: int| 0 <= i < j && s[i] == x,
    decreases j,
{
    if s[j - 1] != x {
        lemma_count_positive(s, x, j - 1);
    }
}

/// At most one value has a strict majority.
pub proof fn lemma_majority_unique<T>(s: Seq<T>, x: T, y: T)
    requires
        has_majority(s, x),
        has_majority(s, y),
    ensures
        x == y,
{
    if x != y {
        lemma_count_upto_bound(s, x, y, s.len() as int);
    }
}

/// With an even number of votes, a tie (two values with half the votes
/// each) yields no majority.
pub proof fn lemma_even_tie_has_no_majority<T>(s: Seq<T>, x: T, y: T)
    requires
        s.len() % 2 == 0,
        x != y,
        count(s, x) == s.len() / 2,
        count(s, y) == s.len() / 2,
    ensures
        majority_spec(s) is None,
{
    assert forall|z: T| !has_majority(s, z) by {
        if z != x && z != y {
            lemma_count_upto_bound(s, x, z, s.len() as int);
        }
    }
}

/// With an odd number of votes over two candidate values, one of them
/// always has a strict majority.
pub proof fn lemma_odd_two_valued_has_majority<T>(s: Seq<T>, x: T, y: T)
    requires
        s.len() % 2 == 1,
        x != y,
        forall|i: int| 0 <= i < s.len() ==> s[i] == x || s[i] == y,
    ensures
        majority_spec(s) is Some,
{
    lemma_count_upto_total(s, x, y, s.len() as int);
    if count(s, x) >= s.len() / 2 + 1 {
        assert(has_majority(s, x));
    } else {
        assert(has_majority(s, y));
    }
}

/// Return the value agreed on by a strict majority of `votes`, if any.
///
/// With an even number of votes, a tie yields `None`.
pub fn majority_vote<T: PartialEq + Copy>(votes: &[T]) -> (r: Option<T>)
    requires
        structural_eq::<T>(),
    ensures
        r == majority_spec(votes@),
{
    let n = votes.len();
    if n == 0 {
        proof {
            assert forall|x: T| !has_majority(votes@, x) by {}
        }
        return None;
    }
    let threshold = n / 2 + 1;
    let mut i: usize = 0;
    while i < n
        invariant
            0 <= i <= n,
            n == votes@.len(),
            threshold == n / 2 + 1,
            structural_eq::<T>(),
            forall|k: int| 0 <= k < i ==> !has_majority(votes@, #[trigger] votes@[k]),
        decreases n - i,
    {
        let mut count: usize = 0;
        let mut j: usize = 0;
        while j < n
            invariant
                0 <= j <= n,
                i < n,
                n == votes@.len(),
                structural_eq::<T>(),
                count == count_upto(votes@, votes@[i as int], j as int),
                count <= j,
            decreases n - j,
        {
            let same = votes[i] == votes[j];
            proof {
                assert(votes@[i as int].eq_spec(&votes@[j as int]) <==> votes@[i as int] == votes@[j as int]);
            }
            if same {
                count += 1;
            }
            j += 1;
        }
        if count >= threshold {
            proof {
                let x = votes@[i as int];
                assert(has_majority(votes@, x));
                let c = choose|y: T| has_majority(votes@, y);
                lemma_majority_unique(votes@, x, c);
            }
            return Some(votes[i]);
        }
        i += 1;
    }
    proof {
        assert forall|x: T| !has_majority(votes@, x) by {
            if has_majority(votes@, x) {
                lemma_count_positive(votes@, x, n as int);
                let k = choose|k: int| 0 <= k < n && votes@[k] == x;
                assert(!has_majority(votes@, votes@[k]));
            }
        }
    }
    None
}

/// Triple Modular Redundancy: three copies voted pairwise.
#[derive(Debug, Clone, Copy, PartialEq, Eq, Hash)]
pub struct Tmr<T> {
    a: T,
    b: T,
    c: T,
}

impl<T> View for Tmr<T> {
    type V = (T, T, T);

    closed spec fn view(&self) -> (T, T, T) {
        (self.a, self.b, self.c)
    }
}

/// The TMR vote: the first replica if another agrees with it, else the
/// second if the third agrees with it, else nothing.
pub open spec fn tmr_vote<T>(v: (T, T, T)) -> Option<T> {
    if v.0 == v.1 || v.0 == v.2 {
        Some(v.0)
    } else if v.1 == v.2 {
        Some(v.1)
    } else {
        None
    }
}

impl<T: PartialEq + Copy> Tmr<T> {
    /// Store three replicas.
    pub fn new(a: T, b: T, c: T) -> (r: Self)
        ensures
            r@ == (a, b, c),
    {
        Tmr { a, b, c }
    }

    /// The agreed value, or `None` if all three differ.
    pub fn vote(&self) -> (r: Option<T>)
        requires
            structural_eq::<T>(),
        ensures
            r == tmr_vote(self@),
    {
        let ab = self.a == self.b;
        let ac = self.a == self.c;
        let bc = self.b == self.c;
        proof {
            assert(self.a.eq_spec(&self.b) <==> self.a == self.b);
            assert(self.a.eq_spec(&self.c) <==> self.a == self.c);
            assert(self.b.eq_spec(&self.c) <==> self.b == self.c);
        }
        if ab || ac {
            Some(self.a)
        } else if bc {
            Some(self.b)
        } else {
            None
        }
    }
}

/// The TMR vote is the strict-majority vote over the three replicas.
pub proof fn lemma_tmr_is_majority<T>(a: T, b: T, c: T)
    ensures
        tmr_vote((a, b, c)) == majority_spec(seq![a, b, c]),
{
    let s = seq![a, b, c];
    reveal_with_fuel(count_upto, 4);
    assert(s[0] == a && s[1] == b && s[2] == c);
    if a == b || a == c {
        assert(has_majority(s, a));
        let m = choose|x: T| has_majority(s, x);
        lemma_majority_unique(s, a, m);
    } else if b == c {
        assert(has_majority(s, b));
        let m = choose|x: T| has_majority(s, x);
        lemma_majority_unique(s, b, m);
    } else {
        assert forall|x: T| !has_majority(s, x) by {}
    }
}

/// `N` replicated copies of a value, voted by majority.
#[derive(Debug, Clone, PartialEq, Eq, Hash)]
pub struct Redundant<T, const N: usize> {
    copies: [T; N],
}

impl<T, const N: usize> View for Redundant<T, N> {
    type V = Seq<T>;

    closed spec fn view(&self) -> Seq<T> {
        self.copies@
    }
}

impl<T: Copy + PartialEq, const N: usize> Redundant<T, N> {
    /// Store `N` copies. `N` must be at least 1.
    pub fn new(copies: [T; N]) -> (r: Self)
        ensures
            r@ == copies@,
    {
        Redundant { copies }
    }

    /// The number of replicas.
    pub fn len(&self) -> (r: usize)
        ensures
            r == N,
    {
        N
    }

    /// Whether any replicas are stored (always `true` for `N >= 1`).
    pub fn is_empty(&self) -> (r: bool)
        ensures
            r == (N == 0),
    {
        N == 0
    }

    /// The majority-agreed value, or `None` on a tie with no strict majority.
    pub fn majority(&self) -> (r: Option<T>)
        requires
            structural_eq::<T>(),
        ensures
            r == majority_spec(self@),
    {
        majority_vote(&self.copies)
    }
}

impl<T, const N: usize> core::ops::Deref for Redundant<T, N> {
    type Target = [T; N];

    fn deref(&self) -> (r: &[T; N])
        ensures
            r@ == self@,
    {
        &self.copies
    }
}

/// The number of set bits of a byte.
pub open spec fn popcount(b: u8) -> nat
    decreases b,
{
    if b == 0 {
        0
    } else {
        (b % 2) as nat + popcount(b / 2)
    }
}

/// The total number of set bits in the first `j` bytes.
pub open spec fn popcount_upto(data: Seq<u8>, j: int) -> nat
    decreases j,
{
    if j <= 0 {
        0
    } else {
        popcount_upto(data, j - 1) + popcount(data[j - 1])
    }
}

fn count_ones(b: u8) -> (r: u8)
    ensures
        r == popcount(b),
        r <= 8,
{
    let mut x = b;
    let mut c: u8 = 0;
    let mut k: u8 = 0;
    proof {
        reveal_with_fuel(pow2_u8, 9);
    }
    while x > 0
        invariant
            popcount(b) == c + popcount(x),
            c <= k,
            k <= 8,
            x < pow2_u8(8 - k),
        decreases x,
    {
        proof {
            assert(x / 2 < pow2_u8(8 - (k + 1))) by {
                assert(x > 0);
                if k == 8 {
                    assert(false);
                }
            }
        }
        c = c + x % 2;
        x = x / 2;
        k = k + 1;
    }
    c
}

/// `2^e` for `e <= 8`.
pub open spec fn pow2_u8(e: int) -> int
    decreases e,
{
    if e <= 0 {
        1
    } else {
        2 * pow2_u8(e - 1)
    }
}

proof fn lemma_popcount_unfold(y: u8)
    ensures
        popcount(y) == (y % 2) as nat + popcount(y / 2),
{
    if y == 0 {
        assert(popcount(0u8 / 2) == 0);
    }
}

/// Flipping one bit of a byte changes its number of set bits by one.
pub proof fn lemma_popcount_flip(x: u8, k: u8)
    requires
        k < 8,
    ensures
        (popcount(x ^ (1u8 << k)) + popcount(x)) % 2 == 1,
    decreases k,
{
    let y = x ^ (1u8 << k);
    lemma_popcount_unfold(x);
    lemma_popcount_unfold(y);
    if k == 0 {
        assert((x ^ (1u8 << 0u8)) % 2 == 1 - x % 2 && (x ^ (1u8 << 0u8)) / 2 == x / 2) by (bit_vector);
    } else {
        assert((x ^ (1u8 << k)) % 2 == x % 2 && (x ^ (1u8 << k)) / 2 == (x / 2) ^ (1u8 << ((k - 1) as u8))) by (bit_vector)
            requires
                0 < k < 8,
        ;
        lemma_popcount_flip(x / 2, (k - 1) as u8);
    }
}

proof fn lemma_popcount_prefix(a: Seq<u8>, b: Seq<u8>, j: int)
    requires
        0 <= j <= a.len(),
    ensures
        popcount_upto(a + b, j) == popcount_upto(a, j),
    decreases j,
{
    if j > 0 {
        lemma_popcount_prefix(a, b, j - 1);
        assert((a + b)[j - 1] == a[j - 1]);
    }
}

proof fn lemma_popcount_suffix(a: Seq<u8>, b: Seq<u8>, j: int)
    requires
        0 <= j <= b.len(),
    ensures
        popcount_upto(a + b, a.len() + j) == popcount_upto(a, a.len() as int) + popcount_upto(b, j),
    decreases j,
{
    if j > 0 {
        lemma_popcount_suffix(a, b, j - 1);
        assert((a + b)[a.len() + j - 1] == b[j - 1]);
    } else {
        lemma_popcount_prefix(a, b, a.len() as int);
    }
}

/// The parity of a concatenation is the sum (exclusive or) of the parities.
pub proof fn lemma_parity_concat(a: Seq<u8>, b: Seq<u8>)
    ensures
        popcount_upto(a + b, (a + b).len() as int) % 2
            == (popcount_upto(a, a.len() as int) % 2 + popcount_upto(b, b.len() as int) % 2) % 2,
{
    lemma_popcount_suffix(a, b, b.len() as int);
}

proof fn lemma_popcount_update(s: Seq<u8>, i: int, y: u8, j: int)
    requires
        0 <= i < s.len(),
        0 <= j <= s.len(),
    ensures
        popcount_upto(s.update(i, y), j) + (if i < j { popcount(s[i]) } else { 0 })
            == popcount_upto(s, j) + (if i < j { popcount(y) } else { 0 }),
    decreases j,
{
    if j > 0 {
        lemma_popcount_update(s, i, y, j - 1);
    }
}

/// Flipping one bit of the data flips its parity.
pub proof fn lemma_parity_flip(data: Seq<u8>, i: int, k: u8)
    requires
        0 <= i < data.len(),
        k < 8,
    ensures
        popcount_upto(data.update(i, data[i] ^ (1u8 << k)), data.len() as int) % 2
            != popcount_upto(data, data.len() as int) % 2,
{
    lemma_popcount_update(data, i, data[i] ^ (1u8 << k), data.len() as int);
    lemma_popcount_flip(data[i], k);
}

/// A Hamming-style single-bit parity check over a byte slice.
#[derive(Debug, Clone, Copy, PartialEq, Eq, Hash)]
pub struct Parity(u8);

impl View for Parity {
    type V = u8;

    closed spec fn view(&self) -> u8 {
        self.0
    }
}

impl Parity {
    /// Compute even parity (1 if the number of set bits is odd).
    pub fn compute(data: &[u8]) -> (r: Self)
        ensures
            r@ == popcount_upto(data@, data@.len() as int) % 2,
    {
        let mut bits: u8 = 0;
        let mut i: usize = 0;
        assert(0u8 & 1 == 0) by (bit_vector);
        while i < data.len()
            invariant
                0 <= i <= data@.len(),
                (bits & 1) as nat == popcount_upto(data@, i as int) % 2,
            decreases data@.len() - i,
        {
            let c = count_ones(data[i]);
            let old_bits = bits;
            bits = bits ^ c;
            proof {
                assert((old_bits ^ c) & 1 == ((old_bits & 1) + (c & 1)) % 2) by (bit_vector);
                assert(c & 1 == c % 2) by (bit_vector);
            }
            i += 1;
        }
        Parity(bits & 1)
    }

    /// The parity bit (0 or 1).
    pub fn bit(&self) -> (r: u8)
        ensures
            r == self@,
    {
        self.0
    }

    /// Whether `other` matches this parity.
    pub fn matches(&self, other: &Parity) -> (r: bool)
        ensures
            r == (self@ == other@),
    {
        self.0 == other.0
    }
}

} // verus!
