use tpt_formal::det_proptest::DeterministicRng;
use tpt_formal::sat::{Cnf, Lit, SatResult, Solver, Step};

#[test]
fn literal_encoding() {
    let p = Lit::new(0, false);
    assert_eq!(p.var(), 0);
    assert!(p.is_pos());
    assert_eq!(p.neg().var(), 0);
    assert!(p.neg().is_neg());
    assert_eq!(Lit::from_dimacs(3).var(), 2);
    assert_eq!(Lit::from_dimacs(-2).var(), 1);
    assert!(Lit::from_dimacs(-2).is_neg());
}

#[test]
fn from_lits_rejects_malformed() {
    // `0` is the DIMACS clause terminator, not a literal.
    assert!(Cnf::from_lits(2, &[&[0]]).is_none());
    // var index `>= vars` is out of range.
    assert!(Cnf::from_lits(2, &[&[1, -3]]).is_none());
    assert!(Cnf::from_lits(1, &[&[-2]]).is_none());
    // well-formed input is accepted.
    assert!(Cnf::from_lits(3, &[&[1], &[-2, 3]]).is_some());
}

#[test]
fn literal_index_and_negation_round_trip() {
    let l = Lit::new(5, true);
    assert_eq!(l.index(), 11);
    assert_eq!(l.neg().neg(), l);
    assert!(l.neg().is_pos());
}

#[test]
fn from_lits_keeps_clauses_in_order() {
    let cnf = Cnf::from_lits(3, &[&[1, -2], &[3]]).unwrap();
    assert_eq!(cnf.var_count(), 3);
    assert_eq!(cnf.clauses().len(), 2);
    let first = cnf.clauses()[0].lits();
    assert_eq!(first.len(), 2);
    assert_eq!(first[0].var(), 0);
    assert!(first[1].is_neg());
    assert!(!cnf.clauses()[1].is_learnt());
}

#[test]
fn simple_sat() {
    // (x ∨ y) ∧ (¬x ∨ y) ∧ (x ∨ ¬y)  → SAT (x=true,y=true)
    let cnf = Cnf::from_lits(2, &[&[1, 2], &[-1, 2], &[1, -2]]).unwrap();
    let mut s = Solver::new(cnf);
    assert_eq!(s.run().unwrap(), SatResult::Sat);
    assert!(s.value(0).unwrap() && s.value(1).unwrap());
}

#[test]
fn simple_unsat() {
    // (x) ∧ (¬x)  → UNSAT
    let cnf = Cnf::from_lits(1, &[&[1], &[-1]]).unwrap();
    let mut s = Solver::new(cnf);
    assert_eq!(s.run().unwrap(), SatResult::Unsat);
}

#[test]
fn unit_propagation_chain() {
    // (x) ∧ (¬x ∨ y) ∧ (¬y ∨ z) → SAT with x,y,z true
    let cnf = Cnf::from_lits(3, &[&[1], &[-1, 2], &[-2, 3]]).unwrap();
    let mut s = Solver::new(cnf);
    assert_eq!(s.run().unwrap(), SatResult::Sat);
    assert!(s.value(0).unwrap() && s.value(1).unwrap() && s.value(2).unwrap());
}

#[test]
fn pigeonhole_two() {
    // (p0) (p1) (¬p0 ∨ ¬p1)  → UNSAT
    let cnf = Cnf::from_lits(2, &[&[1], &[2], &[-1, -2]]).unwrap();
    let mut s = Solver::new(cnf);
    assert_eq!(s.run().unwrap(), SatResult::Unsat);
}

#[test]
fn schur_like_sat() {
    // (a ∨ b) ∧ (¬a ∨ c) ∧ (¬b ∨ ¬c) → SAT
    let cnf = Cnf::from_lits(3, &[&[1, 2], &[-1, 3], &[-2, -3]]).unwrap();
    let formula = cnf.clone();
    let mut s = Solver::new(cnf);
    assert_eq!(s.run().unwrap(), SatResult::Sat);
    let m = s.model();
    let eval = |l: Lit| {
        if l.is_neg() {
            !m[l.var() as usize]
        } else {
            m[l.var() as usize]
        }
    };
    assert!(formula.clauses().iter().all(|c| c.lits().iter().any(|&l| eval(l))));
}

#[test]
fn empty_clause_unsat() {
    let cnf = Cnf::from_lits(0, &[&[]]).unwrap();
    let mut s = Solver::new(cnf);
    assert_eq!(s.run().unwrap(), SatResult::Unsat);
}

#[test]
fn learned_clause_solves_harder() {
    // (x∨y)(x∨¬y) forces x; (¬x∨z)(¬x∨¬z) forces ¬x → conflict
    let cnf = Cnf::from_lits(
        3,
        &[&[1, 2], &[1, -2], &[-1, 3], &[-1, -3], &[2, 3], &[-2, -3]],
    )
    .unwrap();
    let mut s = Solver::new(cnf);
    assert_eq!(s.run().unwrap(), SatResult::Unsat);
}

#[test]
fn conflict_analysis_uses_position_zero_invariant() {
    // p ; (¬r) ; (¬p ∨ q ∨ r) ⇒ q ; (¬q ∨ s) ⇒ s ; (¬s ∨ t) ⇒ t ;
    // (¬t ∨ ¬u) with u ; contradiction t.
    let cnf = Cnf::from_lits(
        6,
        &[
            &[1],        // p
            &[-3],       // ¬r
            &[-1, 2, 3], // (¬p ∨ q ∨ r)
            &[-2, 4],    // (¬q ∨ s)
            &[-4, 5],    // (¬s ∨ t)
            &[-5, -6],   // (¬t ∨ ¬u)
            &[6],        // u
        ],
    )
    .unwrap();
    let mut s = Solver::new(cnf);
    assert_eq!(s.run().unwrap(), SatResult::Unsat);
}

/// A randomly generated CNF: `vars` variables and a list of clauses, each a list
/// of DIMACS literals in range `[1, vars]` / `[-vars, -1]`.
#[derive(Clone, Debug)]
struct RandCnf {
    vars: usize,
    lits: Vec<Vec<i32>>,
}

/// The CNF strategy: the same draws, in the same order, as a `Gen<RandCnf>`.
fn generate_cnf(rng: &mut DeterministicRng) -> RandCnf {
    let vars = 1 + rng.gen_range(5) as usize; // 1..=5
    let nclauses = 1 + rng.gen_range(9) as usize; // 1..=9
    let mut lits = Vec::with_capacity(nclauses);
    for _ in 0..nclauses {
        let nlit = 1 + rng.gen_range(3) as usize; // 1..=3
        let mut clause = Vec::with_capacity(nlit);
        for _ in 0..nlit {
            let v = rng.gen_range(vars as u64) as i32 + 1; // 1..=vars
            let sign = if rng.gen_bool() { 1 } else { -1 };
            clause.push(sign * v);
        }
        lits.push(clause);
    }
    RandCnf { vars, lits }
}

/// Brute-force truth-table oracle: is there an assignment satisfying every clause?
fn brute_force_sat(vars: usize, lits: &[Vec<i32>]) -> bool {
    for bits in 0..(1u64 << vars) {
        let mut all = true;
        for clause in lits {
            let mut clause_ok = false;
            for &l in clause {
                let var = l.unsigned_abs() as usize - 1;
                let val = ((bits >> var) & 1) == 1;
                let lit_true = if l > 0 { val } else { !val };
                if lit_true {
                    clause_ok = true;
                    break;
                }
            }
            if !clause_ok {
                all = false;
                break;
            }
        }
        if all {
            return true;
        }
    }
    false
}

/// Verify a claimed `Sat` model actually satisfies every clause.
fn check_model(vars: usize, lits: &[Vec<i32>], model: &[bool]) -> bool {
    if model.len() != vars {
        return false;
    }
    for clause in lits {
        let mut clause_ok = false;
        for &l in clause {
            let var = (l.unsigned_abs() - 1) as usize;
            let val = model[var];
            let lit_true = if l > 0 { val } else { !val };
            if lit_true {
                clause_ok = true;
                break;
            }
        }
        if !clause_ok {
            return false;
        }
    }
    true
}

fn property(rc: RandCnf) -> bool {
    let slices: Vec<&[i32]> = rc.lits.iter().map(|c| c.as_slice()).collect();
    let cnf = match Cnf::from_lits(rc.vars, &slices) {
        Some(c) => c,
        None => return true,
    };
    let mut solver = Solver::new(cnf);
    match solver.run().unwrap() {
        SatResult::Sat => {
            let model: Vec<bool> = (0..rc.vars)
                .map(|v| solver.value(v as u32).unwrap_or(false))
                .collect();
            check_model(rc.vars, &rc.lits, &model)
        }
        SatResult::Unsat => !brute_force_sat(rc.vars, &rc.lits),
    }
}

#[test]
fn differential_against_truth_table() {
    for seed in 0..32u64 {
        let mut rng = DeterministicRng::new(seed);
        for case in 0..200u64 {
            let input = generate_cnf(&mut rng);
            assert!(property(input.clone()), "property failed at case {} (seed {}): {:?}", case, seed, input);
        }
    }
}

#[test]
fn decide_refuses_an_assigned_variable() {
    let cnf = Cnf::from_lits(2, &[&[1], &[-1, 2]]).unwrap();
    let mut s = Solver::new(cnf);
    // Propagation at construction already assigned both variables.
    assert_eq!(s.value(0), Some(true));
    assert_eq!(s.value(1), Some(true));
    assert!(!s.decide(0));
    assert!(!s.decide(7));
}

#[test]
fn steps_report_decisions_and_learning() {
    // (x ∨ y) (x ∨ ¬y) (¬x ∨ y) (¬x ∨ ¬y): no model; a decision is needed first.
    let cnf = Cnf::from_lits(2, &[&[1, 2], &[1, -2], &[-1, 2], &[-1, -2]]).unwrap();
    let mut s = Solver::new(cnf);
    assert_eq!(s.value(0), None);
    assert!(matches!(s.step(), Step::Decide));
    assert!(s.decide(0));
    assert_eq!(s.value(0), Some(true));
    match s.step() {
        Step::Learned(vars) => assert!(!vars.is_empty() && vars.iter().all(|&v| v < 2)),
        _ => panic!("expected a learned clause"),
    }
    assert_eq!(s.run().unwrap(), SatResult::Unsat);
}

#[test]
fn construction_drops_tautologies_and_merges_repeated_literals() {
    // (x ∨ ¬x ∨ y) is dropped: nothing is assigned.
    let cnf = Cnf::from_lits(2, &[&[1, -1, 2]]).unwrap();
    let s = Solver::new(cnf);
    assert_eq!(s.value(0), None);
    assert_eq!(s.value(1), None);
    // (¬y ∨ ¬y) is the unit ¬y: y is assigned false at construction.
    let cnf = Cnf::from_lits(2, &[&[-2, -2]]).unwrap();
    let s = Solver::new(cnf);
    assert_eq!(s.value(1), Some(false));
    assert_eq!(s.value(0), None);
    // The units x and ¬x clash: the formula has no model.
    let cnf = Cnf::from_lits(1, &[&[1, 1], &[-1]]).unwrap();
    let mut s = Solver::new(cnf);
    assert_eq!(s.run().unwrap(), SatResult::Unsat);
}

#[test]
fn from_lits_rejects_i32_min_without_panicking() {
    assert!(Cnf::from_lits(3, &[&[1], &[i32::MIN]]).is_none());
    assert!(Cnf::from_lits(3, &[&[i32::MIN, 0]]).is_none());
}
