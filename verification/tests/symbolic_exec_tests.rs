use tpt_formal::symbolic_exec::{run, SCond, SExpr, SStmt, ViolationKind};

#[test]
fn div_by_zero_found() {
    // z = 10 / x;  x free → x == 0 feasible (conservatively reported).
    let prog = vec![SStmt::assign("z", SExpr::div(SExpr::const_(10), SExpr::sym("x")))];
    let r = run(&prog);
    assert_eq!(r.violations.len(), 1);
    assert!(matches!(r.violations[0].kind, ViolationKind::DivByZero));
}

#[test]
fn div_by_zero_safe_concrete() {
    // assume(true); z = 10 / 2;  → denominator is a non-zero constant.
    let prog = vec![
        SStmt::assuming(SCond::eq(SExpr::const_(2), SExpr::const_(2))),
        SStmt::assign("z", SExpr::div(SExpr::const_(10), SExpr::const_(2))),
    ];
    let r = run(&prog);
    assert!(r.violations.is_empty(), "denominator is a non-zero constant");
}

#[test]
fn broken_assertion_found() {
    // assert(y >= 0);  y free → y < 0 feasible → violation.
    let prog = vec![SStmt::asserting(SCond::ge(SExpr::var("y"), SExpr::const_(0)))];
    let r = run(&prog);
    assert_eq!(r.violations.len(), 1);
    assert!(matches!(r.violations[0].kind, ViolationKind::Assertion));
}

#[test]
fn assertion_holds_ground() {
    // assume(2 == 2); assert(2 + 3 == 5);  → ground-true, no violation.
    let prog = vec![
        SStmt::assuming(SCond::eq(SExpr::const_(2), SExpr::const_(2))),
        SStmt::asserting(SCond::eq(
            SExpr::add(SExpr::const_(2), SExpr::const_(3)),
            SExpr::const_(5),
        )),
    ];
    let r = run(&prog);
    assert!(r.violations.is_empty());
}

#[test]
fn infeasible_branch_pruned() {
    // assume(false); assert(false);  → path infeasible, no violation.
    let prog = vec![
        SStmt::assuming(SCond::eq(SExpr::const_(1), SExpr::const_(0))),
        SStmt::asserting(SCond::eq(SExpr::const_(0), SExpr::const_(1))),
    ];
    let r = run(&prog);
    assert_eq!(r.paths_explored, 0);
    assert!(r.violations.is_empty());
}

#[test]
fn repeated_atom_contradiction_pruned_by_sat() {
    // assume(x > 0); assume(¬(x > 0)); assert(false);
    let prog = vec![
        SStmt::assuming(SCond::gt(SExpr::sym("x"), SExpr::const_(0))),
        SStmt::assuming(SCond::not(SCond::gt(SExpr::sym("x"), SExpr::const_(0)))),
        SStmt::asserting(SCond::eq(SExpr::const_(0), SExpr::const_(1))),
    ];
    let r = run(&prog);
    assert_eq!(r.paths_explored, 0);
    assert!(r.violations.is_empty());
}

#[test]
fn path_branching_explores_both() {
    let prog = vec![SStmt::if_then_else(
        SCond::gt(SExpr::sym("x"), SExpr::const_(0)),
        vec![SStmt::assign("z", SExpr::const_(1))],
        vec![SStmt::assign("z", SExpr::const_(2))],
    )];
    let r = run(&prog);
    assert!(r.violations.is_empty());
    assert_eq!(r.paths_explored, 2);
}

#[test]
fn if_with_trailing_statement_runs() {
    let prog = vec![
        SStmt::if_then_else(
            SCond::gt(SExpr::sym("x"), SExpr::const_(0)),
            vec![SStmt::assign("z", SExpr::const_(-1))],
            vec![SStmt::assign("z", SExpr::const_(1))],
        ),
        SStmt::assign("w", SExpr::div(SExpr::const_(10), SExpr::sym("x"))),
    ];
    let r = run(&prog);
    assert_eq!(r.violations.len(), 2);
    assert!(r
        .violations
        .iter()
        .all(|v| matches!(v.kind, ViolationKind::DivByZero)));
}

#[test]
fn nested_div_checked() {
    let prog = vec![SStmt::assign(
        "z",
        SExpr::add(SExpr::div(SExpr::const_(10), SExpr::sym("x")), SExpr::const_(1)),
    )];
    let r = run(&prog);
    assert_eq!(r.violations.len(), 1);
    assert!(matches!(r.violations[0].kind, ViolationKind::DivByZero));
}

#[test]
fn div_result_in_condition_no_panic() {
    let prog = vec![
        SStmt::assign("z", SExpr::div(SExpr::const_(10), SExpr::sym("x"))),
        SStmt::asserting(SCond::gt(SExpr::var("z"), SExpr::const_(0))),
    ];
    let r = run(&prog);
    assert!(!r.violations.is_empty());
    assert!(r
        .violations
        .iter()
        .any(|v| matches!(v.kind, ViolationKind::DivByZero)));
}

#[test]
fn division_is_not_reported_again_through_a_passthrough_chain() {
    let prog = vec![
        SStmt::assign("r", SExpr::div(SExpr::sym("a"), SExpr::sym("c"))),
        SStmt::assign("second", SExpr::var("r")),
        SStmt::assign("ret", SExpr::var("second")),
    ];
    let r = run(&prog);
    assert_eq!(r.violations.len(), 1, "{:#?}", r.violations);
}

#[test]
fn division_through_a_combining_expression_is_still_reported_once() {
    let prog = vec![
        SStmt::assign("r", SExpr::div(SExpr::const_(10), SExpr::sym("x"))),
        SStmt::assign("w", SExpr::add(SExpr::var("r"), SExpr::const_(1))),
    ];
    let r = run(&prog);
    assert_eq!(r.violations.len(), 1, "{:#?}", r.violations);
}

#[test]
fn division_by_a_var_denominator_is_still_checked_against_its_real_value() {
    let prog = vec![
        SStmt::assign("z", SExpr::const_(5)),
        SStmt::assign("safe", SExpr::div(SExpr::const_(10), SExpr::var("z"))),
    ];
    let r = run(&prog);
    assert!(
        r.violations.is_empty(),
        "division by a provably-non-zero Var should be safe: {:#?}",
        r.violations
    );

    let prog2 = vec![
        SStmt::assign("y", SExpr::sym("free")),
        SStmt::assign("unsafe_", SExpr::div(SExpr::const_(10), SExpr::var("y"))),
    ];
    let r2 = run(&prog2);
    assert_eq!(r2.violations.len(), 1, "{:#?}", r2.violations);
}

#[test]
fn violation_carries_its_path_condition() {
    // assume(x > 0); assert(x > 5): the witness path is the assumption
    // followed by the negated assertion.
    let prog = vec![
        SStmt::assuming(SCond::gt(SExpr::sym("x"), SExpr::const_(0))),
        SStmt::asserting(SCond::gt(SExpr::sym("x"), SExpr::const_(5))),
    ];
    let r = run(&prog);
    assert_eq!(r.paths_explored, 1);
    assert_eq!(r.violations.len(), 1);
    let pc = &r.violations[0].path_condition;
    assert_eq!(pc.len(), 2);
    assert_eq!(pc[0], SCond::gt(SExpr::sym("x"), SExpr::const_(0)));
    assert_eq!(pc[1], SCond::not(SCond::gt(SExpr::sym("x"), SExpr::const_(5))));
}

#[test]
fn empty_program_explores_one_path() {
    let r = run(&[]);
    assert_eq!(r.paths_explored, 1);
    assert!(r.violations.is_empty());
}
