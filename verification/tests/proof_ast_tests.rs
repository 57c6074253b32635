use tpt_formal::proof_ast::proof_tree::Rule;
use tpt_formal::proof_ast::{Formula, Proof, Term};

#[test]
fn builds_implication() {
    let f = Formula::pred("even", vec![Term::var("n")])
        .implies(Formula::pred("halvable", vec![Term::var("n")]));
    assert_eq!(f.predicates().len(), 2);
}

#[test]
fn modus_ponens_tree() {
    let p = Formula::pred("P", vec![]);
    let imp = p.clone().implies(Formula::pred("Q", vec![]));
    let pq = Proof::axiomatic("ax1", imp);
    let p_proof = Proof::axiomatic("ax2", p);
    let q = Proof::step(Formula::pred("Q", vec![]), Rule::ModusPonens, vec![pq, p_proof]);
    assert_eq!(q.size(), 3);
    assert_eq!(q.depth(), 2);
    assert_eq!(q.conclusions().len(), 3);
}

#[test]
fn builds_and_collects() {
    let t = Term::app("add", vec![Term::var("x"), Term::Num(1)]);
    let fv = t.free_vars();
    assert!(fv.contains("x"));
    assert_eq!(fv.len(), 1);
}

#[test]
fn conclusions_are_in_pre_order() {
    let a = Formula::pred("A", vec![]);
    let b = Formula::pred("B", vec![]);
    let c = Formula::pred("C", vec![]);
    let leaf_b = Proof::assumption(b.clone());
    let mid = Proof::step(a.clone(), Rule::Named("r".to_string()), vec![leaf_b]);
    let leaf_c = Proof::axiomatic("c", c.clone());
    let root = Proof::step(a.clone().and(c.clone()), Rule::AndIntro, vec![mid, leaf_c]);
    let cs = root.conclusions();
    assert_eq!(cs.len(), root.size());
    assert_eq!(*cs[1], a);
    assert_eq!(*cs[2], b);
    assert_eq!(*cs[3], c);
    assert_eq!(root.depth(), 3);
}

#[test]
fn variables_and_predicates_are_collected_once() {
    let t = Term::app(
        "f",
        vec![Term::var("x"), Term::Lambda("y".to_string(), Box::new(Term::var("y"))), Term::var("x")],
    );
    let fv = t.free_vars();
    assert_eq!(fv.len(), 1);
    assert!(fv.contains("x"));
    assert!(!fv.contains("y"));
    assert!(!fv.contains("f"));
    let lam = Term::Lambda(
        "x".to_string(),
        Box::new(Term::app("f", vec![Term::var("x"), Term::var("y")])),
    );
    let lv = lam.free_vars();
    assert_eq!(lv.len(), 1);
    assert!(lv.contains("y"));
    let f = (!Formula::pred("P", vec![])).or(Formula::pred("P", vec![]).for_all("x"));
    assert_eq!(f.predicates().len(), 1);
    assert!(Term::const_("c").free_vars().is_empty());
}

#[test]
fn free_variables_come_out_in_sorted_order() {
    let t = Term::app("f", vec![Term::var("zeta"), Term::var("alpha"), Term::var("mu"), Term::var("alpha")]);
    let fv = t.free_vars();
    let names: Vec<&str> = fv.names().iter().map(|s| s.as_str()).collect();
    assert_eq!(names, vec!["alpha", "mu", "zeta"]);
}
