//! Deterministic, seedable property-based testing.
//!
//! Unlike fuzzing harnesses that draw entropy from the OS, this module drives
//! case generation from an explicit 64-bit seed via a fixed PRNG. The same
//! seed always produces the same sequence of cases, so a failing property can
//! be reproduced exactly: every value below is a function of the seed
//! ([`xorshift`], [`scramble`], [`seed_state`]).
use vstd::prelude::*;

verus! {

/// The multiplier of the xorshift64* output scrambler.
pub const SCRAMBLE: u64 = 0x2545_F491_4F6C_DD1D;

/// The state a zero seed is mapped to.
pub const ZERO_SEED_STATE: u64 = 0x9E37_79B9_7F4A_7C15;

/// The generator state for a seed: a zero seed is remapped to a non-zero
/// state.
pub open spec fn seed_state(seed: u64) -> u64 {
    if seed == 0 {
        ZERO_SEED_STATE
    } else {
        seed
    }
}

/// The xorshift64 state transition.
pub open spec fn xorshift(x: u64) -> u64 {
    let a = x ^ (x >> 12u64);
    let b = a ^ (a << 25u64);
    b ^ (b >> 27u64)
}

/// The output drawn from the state `x`: the next state, scrambled.
pub open spec fn scramble(x: u64) -> u64 {
    vstd::wrapping::u64_specs::wrapping_mul(xorshift(x), SCRAMBLE)
}

/// A non-zero state stays non-zero under the transition.
pub proof fn lemma_xorshift_nonzero(x: u64)
    requires
        x != 0,
    ensures
        xorshift(x) != 0,
{
    let a = x ^ (x >> 12u64);
    let b = a ^ (a << 25u64);
    assert(x != 0 ==> x ^ (x >> 12u64) != 0) by (bit_vector);
    assert(a != 0 ==> a ^ (a << 25u64) != 0) by (bit_vector);
    assert(b != 0 ==> b ^ (b >> 27u64) != 0) by (bit_vector);
}

/// `(v * n) >> 64`: a value in `[0, n)` drawn from the 64-bit `v`.
pub open spec fn scale(v: u64, n: u64) -> u64 {
    ((v as int * n as int) / 0x1_0000_0000_0000_0000int) as u64
}

/// Drawing from a range `[0, n)` stays in the range.
pub proof fn lemma_scale_in_range(v: u64, n: u64)
    requires
        n > 0,
    ensures
        scale(v, n) < n,
{
    assert((v as int * n as int) / 0x1_0000_0000_0000_0000int < n as int) by (nonlinear_arith)
        requires
            0 <= v < 0x1_0000_0000_0000_0000int,
            n > 0,
    ;
}

fn next_state(x: u64) -> (r: u64)
    ensures
        r == xorshift(x),
{
    let mut y = x;
    y ^= y >> 12;
    y ^= y << 25;
    y ^= y >> 27;
    y
}

/// The byte `j` (little-endian) of `w`.
pub open spec fn le_byte(w: u64, j: int) -> u8 {
    ((w >> ((8 * j) as u64)) & 0xffu64) as u8
}

/// A small, fast, fully deterministic PRNG (xorshift64*).
#[derive(Debug, PartialEq, Eq)]
pub struct DeterministicRng {
    state: u64,
}

impl Clone for DeterministicRng {
    fn clone(&self) -> (r: Self)
        ensures
            r@ == self@,
    {
        proof {
            use_type_invariant(self);
        }
        DeterministicRng { state: self.state }
    }
}

impl View for DeterministicRng {
    type V = u64;

    closed spec fn view(&self) -> u64 {
        self.state
    }
}

impl DeterministicRng {
    #[verifier::type_invariant]
    closed spec fn state_nonzero(self) -> bool {
        self.state != 0
    }

    /// Create a generator from a seed. A zero seed is mapped to a non-zero
    /// state so the generator is always well-defined.
    pub fn new(seed: u64) -> (r: Self)
        ensures
            r@ == seed_state(seed),
            r@ != 0,
    {
        DeterministicRng {
            state: if seed == 0 {
                ZERO_SEED_STATE
            } else {
                seed
            },
        }
    }

    /// Advance the generator and return the next 64-bit value.
    pub fn next_u64(&mut self) -> (r: u64)
        ensures
            final(self)@ == xorshift(old(self)@),
            r == scramble(old(self)@),
            old(self)@ != 0,
            final(self)@ != 0,
    {
        proof {
            use_type_invariant(&*self);
            lemma_xorshift_nonzero(self.state);
        }
        let x = next_state(self.state);
        self.state = x;
        x.wrapping_mul(SCRAMBLE)
    }

    /// Produce a `u64` in `[0, n)` (`0` when `n` is `0`).
    pub fn gen_range(&mut self, n: u64) -> (r: u64)
        ensures
            n == 0 ==> r == 0 && final(self)@ == old(self)@,
            n > 0 ==> r == scale(scramble(old(self)@), n) && final(self)@ == xorshift(old(self)@),
            n > 0 ==> r < n,
    {
        if n == 0 {
            return 0;
        }
        // Lemire's method — unbiased and branch-light.
        let v = self.next_u64();
        assert((v as u128) * (n as u128) <= u128::MAX) by (nonlinear_arith)
            requires
                v <= u64::MAX,
                n <= u64::MAX,
        ;
        let m: u128 = (v as u128) * (n as u128);
        proof {
            lemma_scale_in_range(v, n);
            assert(m >> 64u128 == m / 0x1_0000_0000_0000_0000u128) by (bit_vector);
        }
        (m >> 64) as u64
    }

    /// Produce a `bool`.
    pub fn gen_bool(&mut self) -> (r: bool)
        ensures
            final(self)@ == xorshift(old(self)@),
            r == (scramble(old(self)@) & 1 == 1),
    {
        (self.next_u64() & 1) == 1
    }

    /// Fill a byte buffer with the little-endian bytes of successive
    /// outputs: byte `i` is byte `i % 8` of output `i / 8`.
    pub fn fill_bytes(&mut self, buf: &mut [u8])
        ensures
            final(buf)@.len() == old(buf)@.len(),
            forall|i: int|
                0 <= i < old(buf)@.len() ==> #[trigger] final(buf)@[i] == le_byte(
                    scramble(state_after(old(self)@, (i / 8) as nat)),
                    i % 8,
                ),
            final(self)@ == state_after(old(self)@, ((old(buf)@.len() + 7) / 8) as nat),
    {
        let ghost s0 = self@;
        let mut i: usize = 0;
        let mut words: usize = 0;
        while i < buf.len()
            invariant
                buf@.len() == old(buf)@.len(),
                i == 8 * words || i == buf@.len(),
                i <= buf@.len(),
                words == (i + 7) / 8,
                self@ == state_after(s0, words as nat),
                forall|k: int|
                    0 <= k < i ==> #[trigger] buf@[k] == le_byte(
                        scramble(state_after(s0, (k / 8) as nat)),
                        k % 8,
                    ),
            decreases buf@.len() - i,
        {
            let ghost before = self@;
            let word = self.next_u64();
            proof {
                assert(i == 8 * words);
            }
            let mut j: usize = 0;
            while j < 8 && i < buf.len()
                invariant
                    buf@.len() == old(buf)@.len(),
                    j <= 8,
                    i == 8 * words + j,
                    i <= buf@.len(),
                    word == scramble(state_after(s0, words as nat)),
                    forall|k: int|
                        0 <= k < i ==> #[trigger] buf@[k] == le_byte(
                            scramble(state_after(s0, (k / 8) as nat)),
                            k % 8,
                        ),
                decreases 8 - j,
            {
                let b = ((word >> (8 * j as u64)) & 0xff) as u8;
                buf[i] = b;
                proof {
                    assert(i / 8 == words);
                    assert(i % 8 == j);
                }
                i += 1;
                j += 1;
            }
            words += 1;
            proof {
                assert(self@ == state_after(s0, words as nat));
            }
        }
    }
}

/// The state after `k` draws from state `s`.
pub open spec fn state_after(s: u64, k: nat) -> u64
    decreases k,
{
    if k == 0 {
        s
    } else {
        xorshift(state_after(s, (k - 1) as nat))
    }
}

/// A strategy that produces values of `T` from a deterministic RNG.
///
/// `spec_generate` gives the value produced from a generator state and the
/// state left behind.
pub trait Gen<T> {
    /// The value generated from the state `s`, and the next state.
    spec fn spec_generate(&self, s: u64) -> (T, u64);

    /// Generate the next value.
    fn generate(&self, rng: &mut DeterministicRng) -> (r: T)
        ensures
            (r, final(rng)@) == self.spec_generate(old(rng)@),
    ;
}

impl Gen<u64> for () {
    open spec fn spec_generate(&self, s: u64) -> (u64, u64) {
        (scramble(s), xorshift(s))
    }

    fn generate(&self, rng: &mut DeterministicRng) -> (r: u64) {
        rng.next_u64()
    }
}

impl Gen<u32> for () {
    open spec fn spec_generate(&self, s: u64) -> (u32, u64) {
        (scramble(s) as u32, xorshift(s))
    }

    fn generate(&self, rng: &mut DeterministicRng) -> (r: u32) {
        rng.next_u64() as u32
    }
}

impl Gen<i64> for () {
    open spec fn spec_generate(&self, s: u64) -> (i64, u64) {
        (scramble(s) as i64, xorshift(s))
    }

    fn generate(&self, rng: &mut DeterministicRng) -> (r: i64) {
        rng.next_u64() as i64
    }
}

impl Gen<bool> for () {
    open spec fn spec_generate(&self, s: u64) -> (bool, u64) {
        (scramble(s) & 1 == 1, xorshift(s))
    }

    fn generate(&self, rng: &mut DeterministicRng) -> (r: bool) {
        rng.gen_bool()
    }
}

/// A counterexample captured when a property fails.
#[derive(Debug, Clone, PartialEq, Eq)]
pub struct CounterExample<T> {
    /// The input that failed the property.
    pub input: T,
    /// The seed the generator was started with.
    pub seed: u64,
    /// The zero-based case index that failed.
    pub case: u64,
}

/// The outcome of running a property.
#[derive(Debug, Clone, PartialEq, Eq)]
pub enum Outcome<T> {
    /// All generated cases satisfied the property.
    Passed {
        /// Number of cases checked.
        cases: u64,
        /// Seed used.
        seed: u64,
    },
    /// A case violated the property.
    Failed(CounterExample<T>),
}

/// The generator state before case `k` of a run seeded by `seed`.
pub open spec fn case_state<T, G: Gen<T>>(gen: &G, seed: u64, k: nat) -> u64
    decreases k,
{
    if k == 0 {
        seed_state(seed)
    } else {
        gen.spec_generate(case_state::<T, G>(gen, seed, (k - 1) as nat)).1
    }
}

/// The input of case `k` of a run seeded by `seed`.
pub open spec fn case_input<T, G: Gen<T>>(gen: &G, seed: u64, k: nat) -> T {
    gen.spec_generate(case_state::<T, G>(gen, seed, k)).0
}

/// Case `k` passed: `prop` returned `true` on a clone of its input.
pub open spec fn case_passes<T: Clone, G: Gen<T>, F: Fn(T) -> bool>(
    gen: &G,
    seed: u64,
    prop: &F,
    k: nat,
) -> bool {
    exists|t: T| cloned(case_input::<T, G>(gen, seed, k), t) && call_ensures(*prop, (t,), true)
}

/// Run `prop` over `cases` generated values from `gen`, seeded by `seed`.
///
/// Returns [`Outcome::Passed`] if every case satisfies `prop`, or the first
/// [`Outcome::Failed`] counterexample otherwise. The inputs are fully
/// determined by `(gen, seed)`: case `k` is [`case_input`]; `prop` is called
/// on a clone of each.
pub fn check_prop<T: Clone, G: Gen<T>, F: Fn(T) -> bool>(gen: &G, cases: u64, seed: u64, prop: F) -> (r:
    Outcome<T>)
    requires
        forall|t: T| call_requires(prop, (t,)),
    ensures
        r matches Outcome::Passed { cases: c, seed: s } ==> c == cases && s == seed && forall|k: nat|
            k < cases ==> #[trigger] case_passes::<T, G, F>(gen, seed, &prop, k),
        r matches Outcome::Failed(ce) ==> {
            &&& ce.seed == seed
            &&& ce.case < cases
            &&& ce.input == case_input::<T, G>(gen, seed, ce.case as nat)
            &&& exists|t: T| cloned(ce.input, t) && call_ensures(prop, (t,), false)
            &&& forall|k: nat| k < ce.case ==> #[trigger] case_passes::<T, G, F>(gen, seed, &prop, k)
        },
{
    let mut rng = DeterministicRng::new(seed);
    let mut case: u64 = 0;
    while case < cases
        invariant
            0 <= case <= cases,
            forall|t: T| call_requires(prop, (t,)),
            rng@ == case_state::<T, G>(gen, seed, case as nat),
            forall|k: nat| k < case ==> #[trigger] case_passes::<T, G, F>(gen, seed, &prop, k),
        decreases cases - case,
    {
        let input = gen.generate(&mut rng);
        let arg = input.clone();
        let ok = prop(arg);
        if !ok {
            proof {
                assert(cloned(input, arg));
                assert(call_ensures(prop, (arg,), false));
            }
            return Outcome::Failed(CounterExample { input, seed, case });
        }
        proof {
            assert forall|k: nat| k < case + 1 implies #[trigger] case_passes::<T, G, F>(
                gen,
                seed,
                &prop,
                k,
            ) by {
                if k == case {
                    assert(cloned(case_input::<T, G>(gen, seed, k), arg));
                }
            }
        }
        case += 1;
    }
    Outcome::Passed { cases, seed }
}

} // verus!
