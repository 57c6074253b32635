use tpt_formal::model_check::{check_safety, reachable, Model, SafetyResult};

#[derive(Clone, Debug, PartialEq, Eq, Hash)]
struct BoundedCounter {
    cap: u32,
    max: u32,
}

#[derive(Clone, Debug, PartialEq, Eq, Hash)]
struct Count(u32);

#[derive(Clone, Debug, PartialEq, Eq, Hash)]
enum CountAct {
    Inc,
}

impl Model for BoundedCounter {
    type State = Count;
    type Action = CountAct;
    fn is_initial(&self, s: Count) -> bool {
        s.0 == 0
    }
    fn enabled(&self, s: Count, _a: CountAct) -> bool {
        s.0 < self.cap
    }
    fn successor(&self, s: Count, _a: CountAct) -> Count {
        Count(s.0 + 1)
    }
    fn violates(&self, s: Count) -> bool {
        s.0 >= self.max
    }
    fn initials(&self) -> Vec<Count> {
        vec![Count(0)]
    }
    fn actions(&self, s: &Count) -> Vec<CountAct> {
        if s.0 < self.cap {
            vec![CountAct::Inc]
        } else {
            vec![]
        }
    }
    fn step(&self, s: &Count, _: &CountAct) -> Count {
        Count(s.0 + 1)
    }
    fn is_error(&self, s: &Count) -> bool {
        s.0 >= self.max
    }
}

#[test]
fn safe_bounded_counter() {
    let safe = BoundedCounter { cap: 2, max: 3 };
    assert!(matches!(check_safety(&safe), SafetyResult::Safe));
}

#[test]
fn violating_bounded_counter() {
    let bad = BoundedCounter { cap: 3, max: 3 };
    match check_safety(&bad) {
        SafetyResult::Safe => panic!("expected violation"),
        SafetyResult::Violated(ce) => {
            assert_eq!(ce.steps.len(), 4);
            assert_eq!(ce.steps[0].0 .0, 0);
            assert_eq!(ce.steps[3].0 .0, 3);
            assert!(ce.steps[3].1.is_none());
        }
    }
}

#[test]
fn reachable_count() {
    let m = BoundedCounter { cap: 3, max: 10 };
    let r = reachable(&m);
    assert_eq!(r.len(), 4); // states 0,1,2,3
}

#[derive(Clone, Debug, PartialEq, Eq, Hash)]
struct ME {
    p0: bool,
    p1: bool,
}

#[derive(Clone, Debug, PartialEq, Eq, Hash)]
enum MEAct {
    P0Enter,
    P0Exit,
    P1Enter,
    P1Exit,
}

impl Model for ME {
    type State = ME;
    type Action = MEAct;
    fn is_initial(&self, s: ME) -> bool {
        !s.p0 && !s.p1
    }
    fn enabled(&self, s: ME, a: MEAct) -> bool {
        match a {
            MEAct::P0Enter => !s.p0,
            MEAct::P0Exit => s.p0,
            MEAct::P1Enter => !s.p1,
            MEAct::P1Exit => s.p1,
        }
    }
    fn successor(&self, s: ME, a: MEAct) -> ME {
        self.step(&s, &a)
    }
    fn violates(&self, s: ME) -> bool {
        s.p0 && s.p1
    }
    fn initials(&self) -> Vec<ME> {
        vec![ME { p0: false, p1: false }]
    }
    fn actions(&self, s: &ME) -> Vec<MEAct> {
        let mut v = Vec::new();
        if !s.p0 {
            v.push(MEAct::P0Enter);
        } else {
            v.push(MEAct::P0Exit);
        }
        if !s.p1 {
            v.push(MEAct::P1Enter);
        } else {
            v.push(MEAct::P1Exit);
        }
        v
    }
    fn step(&self, s: &ME, a: &MEAct) -> ME {
        match a {
            MEAct::P0Enter => ME { p0: true, p1: s.p1 },
            MEAct::P0Exit => ME { p0: false, p1: s.p1 },
            MEAct::P1Enter => ME { p0: s.p0, p1: true },
            MEAct::P1Exit => ME { p0: s.p0, p1: false },
        }
    }
    fn is_error(&self, s: &ME) -> bool {
        s.p0 && s.p1
    }
}

#[test]
fn mutual_exclusion_violated() {
    match check_safety(&ME { p0: false, p1: false }) {
        SafetyResult::Safe => panic!("naive protocol is unsafe"),
        SafetyResult::Violated(ce) => {
            let last = &ce.steps.last().unwrap().0;
            assert!(last.p0 && last.p1);
        }
    }
}

#[test]
fn counterexample_is_a_run_of_the_model() {
    let bad = BoundedCounter { cap: 5, max: 2 };
    match check_safety(&bad) {
        SafetyResult::Safe => panic!("expected violation"),
        SafetyResult::Violated(ce) => {
            let steps = &ce.steps;
            assert_eq!(steps[0].0, Count(0));
            for k in 0..steps.len() - 1 {
                let a = steps[k].1.clone().unwrap();
                assert!(bad.actions(&steps[k].0).contains(&a));
                assert_eq!(bad.step(&steps[k].0, &a), steps[k + 1].0);
                assert!(!bad.is_error(&steps[k].0));
            }
            assert!(bad.is_error(&steps[steps.len() - 1].0));
        }
    }
}

#[test]
fn initial_error_state_is_reported_alone() {
    let bad = BoundedCounter { cap: 5, max: 0 };
    match check_safety(&bad) {
        SafetyResult::Safe => panic!("expected violation"),
        SafetyResult::Violated(ce) => {
            assert_eq!(ce.steps.len(), 1);
            assert!(ce.steps[0].1.is_none());
        }
    }
}

#[test]
fn reachable_states_are_distinct_and_closed() {
    let r = reachable(&ME { p0: false, p1: false });
    assert_eq!(r.len(), 4);
    for (i, a) in r.iter().enumerate() {
        for b in r.iter().skip(i + 1) {
            assert_ne!(a, b);
        }
    }
}

/// A graph with a long and a short way to the error state 9:
/// 0 -> 1 -> 2 -> 3 -> 9 and 0 -> 5 -> 9.
#[derive(Clone, Debug, PartialEq, Eq, Hash)]
struct TwoRoutes;

fn two_routes_next(s: u32) -> Vec<u32> {
    match s {
        0 => vec![1, 5],
        1 => vec![2],
        2 => vec![3],
        3 => vec![9],
        5 => vec![9],
        _ => vec![],
    }
}

impl Model for TwoRoutes {
    type State = u32;
    type Action = u32;
    fn is_initial(&self, s: u32) -> bool {
        s == 0
    }
    fn enabled(&self, s: u32, a: u32) -> bool {
        two_routes_next(s).contains(&a)
    }
    fn successor(&self, _s: u32, a: u32) -> u32 {
        a
    }
    fn violates(&self, s: u32) -> bool {
        s == 9
    }
    fn initials(&self) -> Vec<u32> {
        vec![0]
    }
    fn actions(&self, s: &u32) -> Vec<u32> {
        two_routes_next(*s)
    }
    fn step(&self, _s: &u32, a: &u32) -> u32 {
        *a
    }
    fn is_error(&self, s: &u32) -> bool {
        *s == 9
    }
}

#[test]
fn counterexample_takes_the_shortest_route() {
    match check_safety(&TwoRoutes) {
        SafetyResult::Safe => panic!("expected violation"),
        SafetyResult::Violated(ce) => {
            let states: Vec<u32> = ce.steps.iter().map(|x| x.0).collect();
            assert_eq!(states, vec![0, 5, 9]);
        }
    }
}
