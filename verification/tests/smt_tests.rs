use tpt_formal::bool_abstract::decide;
use tpt_formal::smt_lite::{Model, Problem, SatResult, Sort, Term, Value};

#[test]
fn ground_sat_and_unsat() {
    // (and (> 3 1) (= 2 2))  -> SAT
    let mut p = Problem::new();
    p.assert_term(Term::bool(true).and(Term::int_(3).gt(Term::int_(1))));
    assert_eq!(p.check_sat(), SatResult::Sat);

    // (= 1 2) -> UNSAT
    let mut q = Problem::new();
    q.assert_term(Term::int_(1).equals(Term::int_(2)));
    assert_eq!(q.check_sat(), SatResult::Unsat);
}

#[test]
fn free_variable_is_unknown() {
    let mut p = Problem::new();
    p.declare_const("x", Sort::Int);
    p.assert_term(Term::var("x").gt(Term::int_(0)));
    assert_eq!(p.check_sat(), SatResult::Unknown);
}

#[test]
fn eval_ground_term() {
    let model = Model::new();
    let t = Term::int_(2) + (Term::int_(3) * Term::int_(4));
    assert_eq!(t.eval(&model), Some(Value::Int(14)));
}

#[test]
fn eval_negation_and_ite() {
    let model = Model::new();
    let t = (!Term::bool(false)).and(Term::bool(true).ite(Term::bool(true), Term::bool(false)));
    assert_eq!(t.eval(&model), Some(Value::Bool(true)));
}

#[test]
fn smtlib2_serialization() {
    let mut p = Problem::new();
    p.declare_const("x", Sort::Int);
    p.assert_term(Term::var("x").le(Term::int_(10)));
    let script = p.to_smtlib2();
    assert!(script.contains("(declare-const x Int)"));
    assert!(script.contains("(<= x 10)"));
    assert!(script.contains("(check-sat)"));
}

#[test]
fn contradiction_on_a_repeated_atom_is_unsat() {
    // (x > 0) and not (x > 0): the ground tier cannot decide it, the
    // boolean abstraction refutes it.
    let mut p = Problem::new();
    p.assert_term(Term::var("x").gt(Term::int_(0)));
    p.assert_term(!Term::var("x").gt(Term::int_(0)));
    assert_eq!(p.check_sat(), SatResult::Unsat);
    assert_eq!(decide(&p), SatResult::Unsat);
}

#[test]
fn model_lookup_and_eval_with_variables() {
    let mut m = Model::new();
    m.insert("x", Value::Int(5));
    m.insert("x", Value::Int(7));
    assert_eq!(m.get("x"), Some(Value::Int(7)));
    assert_eq!(m.get("y"), None);
    let t = Term::var("x") - Term::int_(2);
    assert_eq!(t.eval(&m), Some(Value::Int(5)));
    assert_eq!(Term::var("y").eval(&m), None);
}

#[test]
fn negative_numbers_and_bitvec_sorts_render() {
    assert_eq!(Term::int_(-42).to_smtlib2(), "(- 42)");
    assert_eq!(Term::int_(i64::MIN).to_smtlib2(), "(- 9223372036854775808)");
    assert_eq!(Term::int_(0).to_smtlib2(), "0");
    assert_eq!(Sort::BitVec(32).to_smtlib2(), "(_ BitVec 32)");
    assert_eq!(Term::int_(3).ge(Term::var("y")).to_smtlib2(), "(>= 3 y)");
}

#[test]
fn ground_model_holds_every_assertion() {
    let mut p = Problem::new();
    p.assert_term(Term::int_(1).lt(Term::int_(2)));
    let m = p.get_model();
    assert_eq!(p.assertions()[0].eval(&m), Some(Value::Bool(true)));
    assert_eq!(p.declarations().len(), 0);
}

#[test]
fn equality_of_mixed_sorts_is_unknown() {
    let model = Model::new();
    assert_eq!(Term::int_(1).equals(Term::bool(true)).eval(&model), None);
    assert_eq!(Term::int_(1).equals(Term::int_(1)).eval(&model), Some(Value::Bool(true)));
    assert_eq!(Term::bool(true).equals(Term::bool(false)).eval(&model), Some(Value::Bool(false)));
}
