use tpt_formal::deterministic_sim::{SimRng, Simulation, World};

struct Counter;
impl World for Counter {
    type State = i64;
    type Action = i64;
    type Event = i64;
    fn spec_step(&self, s: i64, a: i64, rng: u64) -> (i64, i64, u64) {
        (s + a, s + a, rng)
    }
    fn step(&self, s: &i64, a: &i64, _rng: &mut SimRng) -> (i64, i64) {
        let next = s + a;
        (next, next)
    }
}

#[test]
fn deterministic_run() {
    let mut sim = Simulation::new(Counter, 0, 123);
    sim.run(vec![1i64, 2, 3, 4]);
    assert_eq!(*sim.state(), 10);
    assert_eq!(sim.steps().len(), 4);
    assert_eq!(sim.steps()[3].state, 10);

    let mut sim2 = Simulation::new(Counter, 0, 123);
    sim2.run(vec![1i64, 2, 3, 4]);
    assert_eq!(sim.steps(), sim2.steps());
}

struct Noisy;
impl World for Noisy {
    type State = u64;
    type Action = u64;
    type Event = u64;
    fn spec_step(&self, s: u64, a: u64, rng: u64) -> (u64, u64, u64) {
        let mut r = SimRng::new(rng);
        let noise = r.gen_range(10);
        (s.wrapping_add(a).wrapping_add(noise), noise, r.next_u64())
    }
    fn step(&self, s: &u64, a: &u64, rng: &mut SimRng) -> (u64, u64) {
        let noise = rng.gen_range(10);
        (s.wrapping_add(*a).wrapping_add(noise), noise)
    }
}

#[test]
fn step_records_are_indexed_and_seeded() {
    let mut sim = Simulation::new(Noisy, 0, 7);
    sim.apply(5);
    sim.apply(6);
    let steps = sim.steps();
    assert_eq!(steps[0].index, 0);
    assert_eq!(steps[1].index, 1);
    assert_eq!(steps[1].action, 6);
    assert!(steps[0].event < 10 && steps[1].event < 10);
    assert_eq!(*sim.state(), 11 + steps[0].event + steps[1].event);

    let mut again = Simulation::new(Noisy, 0, 7);
    again.run(vec![5, 6]);
    assert_eq!(again.steps(), sim.steps());
    let mut rng = SimRng::new(0);
    let mut rng2 = SimRng::new(0);
    assert_eq!(rng.next_u64(), rng2.next_u64());
}
