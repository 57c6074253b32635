//! Deterministic, seedable simulation harness.
//!
//! A [`Simulation`] advances a [`World`] one step at a time from a seeded PRNG,
//! recording each step so a run can be replayed and inspected. Because the
//! RNG is deterministic, identical `(world, actions, seed)` inputs always
//! produce identical logs — essential for reproducible fault analysis: the
//! state, generator and log after a run are functions of these inputs
//! ([`run_state`]).
use vstd::prelude::*;
use crate::det_proptest::{seed_state, xorshift, scramble, scale, lemma_xorshift_nonzero, lemma_scale_in_range};

verus! {

/// A small, fast, fully deterministic PRNG (xorshift64*).
#[derive(Debug, PartialEq, Eq)]
pub struct SimRng {
    state: u64,
}

impl View for SimRng {
    type V = u64;

    closed spec fn view(&self) -> u64 {
        self.state
    }
}

impl Clone for SimRng {
    fn clone(&self) -> (r: Self)
        ensures
            r@ == self@,
    {
        proof {
            use_type_invariant(self);
        }
        SimRng { state: self.state }
    }
}

impl SimRng {
    #[verifier::type_invariant]
    closed spec fn state_nonzero(self) -> bool {
        self.state != 0
    }

    /// Create a generator from a seed (a zero seed is remapped).
    pub fn new(seed: u64) -> (r: Self)
        ensures
            r@ == seed_state(seed),
            r@ != 0,
    {
        SimRng {
            state: if seed == 0 {
                0x9E37_79B9_7F4A_7C15
            } else {
                seed
            },
        }
    }

    /// Next 64-bit value.
    pub fn next_u64(&mut self) -> (r: u64)
        ensures
            final(self)@ == xorshift(old(self)@),
            r == scramble(old(self)@),
            old(self)@ != 0,
            final(self)@ != 0,
    {
        proof {
            use_type_invariant(&*self);
            lemma_xorshift_nonzero(self.state);
        }
        let mut x = self.state;
        x ^= x >> 12;
        x ^= x << 25;
        x ^= x >> 27;
        self.state = x;
        x.wrapping_mul(0x2545_F491_4F6C_DD1D)
    }

    /// A `u64` in `[0, n)` (`0` when `n` is `0`).
    pub fn gen_range(&mut self, n: u64) -> (r: u64)
        ensures
            n == 0 ==> r == 0 && final(self)@ == old(self)@,
            n > 0 ==> r == scale(scramble(old(self)@), n) && final(self)@ == xorshift(old(self)@),
            n > 0 ==> r < n,
    {
        if n == 0 {
            return 0;
        }
        let v = self.next_u64();
        assert((v as u128) * (n as u128) <= u128::MAX) by (nonlinear_arith)
            requires
                v <= u64::MAX,
                n <= u64::MAX,
        ;
        let m: u128 = (v as u128) * (n as u128);
        proof {
            lemma_scale_in_range(v, n);
            assert(m >> 64u128 == m / 0x1_0000_0000_0000_0000u128) by (bit_vector);
        }
        (m >> 64) as u64
    }
}

/// The world a simulation runs over.
///
/// Implementors define how an `Action` transforms a `State` and what
/// `Event` the transition emits; `spec_step` states it, with the generator
/// state before and after.
pub trait World {
    /// The mutable world state.
    type State;
    /// Inputs that drive transitions.
    type Action;
    /// Observations produced by transitions.
    type Event;

    /// The next state, the event, and the generator state after the step.
    spec fn spec_step(&self, state: Self::State, action: Self::Action, rng: u64) -> (
        Self::State,
        Self::Event,
        u64,
    );

    /// Apply `action` to `state`, returning the next state and an event.
    fn step(&self, state: &Self::State, action: &Self::Action, rng: &mut SimRng) -> (r: (
        Self::State,
        Self::Event,
    ))
        ensures
            (r.0, r.1, final(rng)@) == self.spec_step(*state, *action, old(rng)@),
    ;
}

/// A single recorded transition.
#[derive(Debug, Clone, PartialEq, Eq)]
pub struct StepRecord<S, A, E> {
    /// The action that was applied.
    pub action: A,
    /// The resulting state.
    pub state: S,
    /// The event emitted.
    pub event: E,
    /// Zero-based step index.
    pub index: u64,
}

/// A full simulation run.
#[derive(Debug, PartialEq, Eq)]
pub struct Simulation<W: World> {
    world: W,
    state: W::State,
    rng: SimRng,
    steps: Vec<StepRecord<W::State, W::Action, W::Event>>,
}

/// The state and generator state after applying `actions[..k]` from
/// `(state, rng)`.
/// The record of step `k` of running `actions` from `state`: the event the
/// step reported, and a clone of the state it reached.
pub open spec fn step_record_of<W: World>(
    world: W,
    state: W::State,
    rng: u64,
    actions: Seq<W::Action>,
    k: int,
    rec: StepRecord<W::State, W::Action, W::Event>,
) -> bool where W::State: Clone {
    let prev = run_state(world, state, rng, actions, k as nat);
    let out = world.spec_step(prev.0, actions[k], prev.1);
    &&& rec.event == out.1
    &&& cloned(out.0, rec.state)
}

pub open spec fn run_state<W: World>(
    world: W,
    state: W::State,
    rng: u64,
    actions: Seq<W::Action>,
    k: nat,
) -> (W::State, u64)
    decreases k,
{
    if k == 0 {
        (state, rng)
    } else {
        let prev = run_state(world, state, rng, actions, (k - 1) as nat);
        let out = world.spec_step(prev.0, actions[k - 1], prev.1);
        (out.0, out.2)
    }
}

impl<W: World> Simulation<W> where W::State: Clone, W::Event: Clone {
    /// The world being simulated.
    pub closed spec fn spec_world(&self) -> W {
        self.world
    }

    /// The current state.
    pub closed spec fn spec_state(&self) -> W::State {
        self.state
    }

    /// The generator state.
    pub closed spec fn spec_rng(&self) -> u64 {
        self.rng@
    }

    /// The recorded step log.
    pub closed spec fn spec_steps(&self) -> Seq<StepRecord<W::State, W::Action, W::Event>> {
        self.steps@
    }

    /// Begin a simulation from an initial state and a seed.
    pub fn new(world: W, initial: W::State, seed: u64) -> (r: Self)
        ensures
            r.spec_world() == world,
            r.spec_state() == initial,
            r.spec_rng() == seed_state(seed),
            r.spec_steps() == Seq::<StepRecord<W::State, W::Action, W::Event>>::empty(),
    {
        Simulation { world, state: initial, rng: SimRng::new(seed), steps: Vec::new() }
    }

    /// The current state.
    pub fn state(&self) -> (r: &W::State)
        ensures
            *r == self.spec_state(),
    {
        &self.state
    }

    /// The recorded step log.
    pub fn steps(&self) -> (r: &[StepRecord<W::State, W::Action, W::Event>])
        ensures
            r@ == self.spec_steps(),
    {
        self.steps.as_slice()
    }

    /// Apply one action, recording the transition: the record holds the
    /// action, a clone of the new state, the event and the step's index.
    pub fn apply(&mut self, action: W::Action)
        requires
            old(self).spec_steps().len() < u64::MAX,
        ensures
            final(self).spec_world() == old(self).spec_world(),
            final(self).spec_state() == old(self).spec_world().spec_step(
                old(self).spec_state(),
                action,
                old(self).spec_rng(),
            ).0,
            final(self).spec_rng() == old(self).spec_world().spec_step(
                old(self).spec_state(),
                action,
                old(self).spec_rng(),
            ).2,
            final(self).spec_steps().len() == old(self).spec_steps().len() + 1,
            final(self).spec_steps().drop_last() == old(self).spec_steps(),
            final(self).spec_steps().last().action == action,
            final(self).spec_steps().last().index == old(self).spec_steps().len(),
            final(self).spec_steps().last().event == old(self).spec_world().spec_step(
                old(self).spec_state(),
                action,
                old(self).spec_rng(),
            ).1,
            cloned(final(self).spec_state(), final(self).spec_steps().last().state),
    {
        let index = self.steps.len() as u64;
        let (next, event) = self.world.step(&self.state, &action, &mut self.rng);
        let copy = next.clone();
        self.steps.push(StepRecord { action, state: copy, event, index });
        self.state = next;
    }

    /// Apply a sequence of actions, in order.
    pub fn run(&mut self, actions: Vec<W::Action>)
        requires
            old(self).spec_steps().len() + actions@.len() <= u64::MAX,
        ensures
            final(self).spec_world() == old(self).spec_world(),
            (final(self).spec_state(), final(self).spec_rng()) == run_state(
                old(self).spec_world(),
                old(self).spec_state(),
                old(self).spec_rng(),
                actions@,
                actions@.len(),
            ),
            final(self).spec_steps().len() == old(self).spec_steps().len() + actions@.len(),
            final(self).spec_steps().subrange(0, old(self).spec_steps().len() as int)
                == old(self).spec_steps(),
            forall|k: int|
                0 <= k < actions@.len() ==> (#[trigger] final(self).spec_steps()[old(self).spec_steps().len()
                    + k]).action == actions@[k] && final(self).spec_steps()[old(self).spec_steps().len()
                    + k].index == old(self).spec_steps().len() + k,
            forall|k: int|
                0 <= k < actions@.len() ==> step_record_of(
                    old(self).spec_world(),
                    old(self).spec_state(),
                    old(self).spec_rng(),
                    actions@,
                    k,
                    #[trigger] final(self).spec_steps()[old(self).spec_steps().len() + k],
                ),
    {
        let ghost all = actions@;
        let ghost w = self.spec_world();
        let ghost st0 = self.spec_state();
        let ghost r0 = self.spec_rng();
        let ghost n0 = self.spec_steps().len();
        let ghost l0 = self.spec_steps();
        let mut actions = actions;
        let n = actions.len();
        let mut i: usize = 0;
        while i < n
            invariant
                0 <= i <= n,
                n == all.len(),
                actions@ == all.subrange(i as int, n as int),
                n0 + n <= u64::MAX,
                self.spec_world() == w,
                (self.spec_state(), self.spec_rng()) == run_state(w, st0, r0, all, i as nat),
                self.spec_steps().len() == n0 + i,
                self.spec_steps().subrange(0, n0 as int) == l0,
                forall|k: int|
                    0 <= k < i ==> (#[trigger] self.spec_steps()[n0 + k]).action == all[k]
                        && self.spec_steps()[n0 + k].index == n0 + k,
                forall|k: int| 0 <= k < i ==> step_record_of(w, st0, r0, all, k, #[trigger] self.spec_steps()[n0 + k]),
            decreases n - i,
        {
            let a = actions.remove(0);
            proof {
                assert(a == all[i as int]);
                assert(actions@ =~= all.subrange(i + 1, n as int));
            }
            let ghost before = self.spec_steps();
            self.apply(a);
            proof {
                assert(self.spec_steps().subrange(0, n0 as int) =~= before.subrange(0, n0 as int));
                assert forall|k: int| 0 <= k < i + 1 implies (#[trigger] self.spec_steps()[n0 + k]).action
                    == all[k] && self.spec_steps()[n0 + k].index == n0 + k by {
                    if k < i {
                        assert(self.spec_steps()[n0 + k] == before[n0 + k]);
                    }
                }
                assert forall|k: int| 0 <= k < i + 1 implies step_record_of(w, st0, r0, all, k, #[trigger] self.spec_steps()[n0 + k]) by {
                    if k < i {
                        assert(self.spec_steps()[n0 + k] == before[n0 + k]);
                    } else {
                        assert(self.spec_steps()[n0 + k] == self.spec_steps().last());
                    }
                }
            }
            i += 1;
        }
    }
}

} // verus!
