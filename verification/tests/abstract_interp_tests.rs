use tpt_formal::abstract_interp::{analyze, AbstractDomain, Cfg, CmpOp, Expr, Interval, Stmt};

#[test]
fn interval_lattice_ops() {
    let a = Interval::new(0, 5);
    let b = Interval::new(3, 10);
    assert_eq!(a.join(&b), Interval::new(0, 10));
    assert_eq!(a.meet(&b), Interval::new(3, 5));
    // Widening is *not* join: it jumps the upper bound straight to top.
    assert_eq!(a.widen(&b), Interval::new(0, i64::MAX));
    let big = Interval::new(0, 5);
    let wide = big.widen(&Interval::new(i64::MIN, i64::MAX));
    assert!(wide.is_top());
    assert!(Interval::bottom().is_bottom());
    assert!(Interval::top().is_top());
}

#[test]
fn interval_arithmetic() {
    let x = Interval::new(1, 3);
    let y = Interval::new(10, 20);
    assert_eq!(x.add(y), Interval::new(11, 23));
    assert_eq!(x.mul(y), Interval::new(10, 60));
    assert_eq!(x.sub(y), Interval::new(-19, -7));
    assert_eq!(x.neg(), Interval::new(-3, -1));
}

#[test]
fn expr_eval() {
    // (x + 1) * 2  with x ∈ [1,3]  → [4,8]
    let e = Expr::mul(Expr::add(Expr::var(0), Expr::const_(1)), Expr::const_(2));
    let state = vec![Interval::new(1, 3)];
    assert_eq!(e.eval(&state), Interval::new(4, 8));
}

#[test]
fn loop_bound_analysis() {
    // x = 0; while (x < 10) { x = x + 1; }  →  x ∈ [10, +∞) at exit
    let mut cfg = Cfg::new(1);
    cfg.block(&[Stmt::assign(0, Expr::const_(0))], &[1]);
    cfg.block(&[], &[2, 3]);
    cfg.block(
        &[
            Stmt::assuming(0, CmpOp::Lt, 10),
            Stmt::assign(0, Expr::add(Expr::var(0), Expr::const_(1))),
        ],
        &[1],
    );
    cfg.block(&[Stmt::assuming(0, CmpOp::Ge, 10)], &[4]);
    cfg.block(&[], &[]);

    let states = analyze(&cfg, 0, vec![Interval::bottom()]).unwrap();
    let exit = states[4][0];
    assert_eq!(exit.lo(), 10);
    assert_eq!(exit.hi(), i64::MAX);
}

#[test]
fn unreachable_branch_is_bottom() {
    // x = 5; assume(x < 0)  → bottom (contradiction)
    let mut cfg = Cfg::new(1);
    cfg.block(&[Stmt::assign(0, Expr::const_(5))], &[1]);
    cfg.block(&[Stmt::assuming(0, CmpOp::Lt, 0)], &[2]);
    cfg.block(&[], &[]);
    let states = analyze(&cfg, 0, vec![Interval::bottom()]).unwrap();
    assert!(states[2][0].is_bottom());
}

#[test]
fn two_variable_analysis() {
    // x = 0; y = x + 7;  → x∈[0,0], y∈[7,7]
    let mut cfg = Cfg::new(2);
    cfg.block(
        &[
            Stmt::assign(0, Expr::const_(0)),
            Stmt::assign(1, Expr::add(Expr::var(0), Expr::const_(7))),
        ],
        &[1],
    );
    cfg.block(&[], &[]);
    let states = analyze(&cfg, 0, vec![Interval::bottom(), Interval::bottom()]).unwrap();
    assert_eq!(states[1][0], Interval::new(0, 0));
    assert_eq!(states[1][1], Interval::new(7, 7));
}

#[test]
fn analyze_rejects_bad_entry_and_width() {
    let mut cfg = Cfg::new(1);
    cfg.block(&[], &[]);
    assert!(analyze(&cfg, 1, vec![Interval::bottom()]).is_none());
    assert!(analyze(&cfg, 0, vec![]).is_none());
}

#[test]
fn arithmetic_saturates_at_the_bounds() {
    let x = Interval::new(i64::MAX - 1, i64::MAX);
    assert_eq!(x.add(Interval::new(5, 5)), Interval::new(i64::MAX, i64::MAX));
    assert_eq!(Interval::new(i64::MIN, i64::MIN).neg(), Interval::new(i64::MAX, i64::MAX));
    assert_eq!(
        Interval::new(-3, 2).mul(Interval::new(-4, 5)),
        Interval::new(-15, 12)
    );
    assert!(Interval::new(1, 0).add(Interval::new(0, 0)).is_bottom());
}

#[test]
fn contains_and_lattice_edge_cases() {
    let a = Interval::new(2, 4);
    assert!(a.contains(2) && a.contains(4) && !a.contains(5));
    assert!(!Interval::bottom().contains(0));
    assert_eq!(Interval::bottom().join(&a), a);
    assert!(Interval::new(0, 1).meet(&Interval::new(5, 6)).is_bottom());
    // Widening downwards jumps the lower bound.
    assert_eq!(a.widen(&Interval::new(1, 3)), Interval::new(i64::MIN, 4));
}

#[test]
fn state_vectors_combine_pointwise() {
    let s1 = vec![Interval::new(0, 1), Interval::new(5, 5)];
    let s2 = vec![Interval::new(3, 4), Interval::new(1, 2)];
    assert_eq!(s1.join(&s2), vec![Interval::new(0, 4), Interval::new(1, 5)]);
    assert_eq!(s1.meet(&s2)[0], Interval::bottom());
    assert!(<Vec<Interval> as AbstractDomain>::bottom().is_bottom());
    assert!(!s1.is_bottom());
}

#[test]
fn narrowing_by_equality_and_bounds() {
    // x ∈ [0, 10]; assume x == 3  →  [3, 3]; assume x > 3 → bottom.
    let mut cfg = Cfg::new(1);
    cfg.block(&[Stmt::assuming(0, CmpOp::Eq, 3)], &[1]);
    cfg.block(&[Stmt::assuming(0, CmpOp::Gt, 3)], &[2]);
    cfg.block(&[], &[]);
    let states = analyze(&cfg, 0, vec![Interval::new(0, 10)]).unwrap();
    assert_eq!(states[1][0], Interval::new(3, 3));
    assert!(states[2][0].is_bottom());
    assert_eq!(cfg.len(), 3);
    assert_eq!(cfg.nvars(), 1);
}

#[test]
fn entry_state_takes_in_flow_back_into_the_entry() {
    // Block 0 is the entry and loops back to itself, adding 1 each time.
    let mut cfg = Cfg::new(1);
    cfg.block(&[Stmt::assign(0, Expr::add(Expr::var(0), Expr::const_(1)))], &[0]);
    let states = analyze(&cfg, 0, vec![Interval::new(0, 0)]).unwrap();
    assert_eq!(states[0][0].lo(), 0);
    assert_eq!(states[0][0].hi(), i64::MAX);
}

#[test]
fn interval_mul_covers_mixed_signs() {
    let p = Interval::new(-2, 3).mul(Interval::new(4, 5));
    assert!(p.contains(-10));
    assert!(p.contains(15));
    assert_eq!(Interval::new(1, 3).mul(Interval::new(10, 20)), Interval::new(10, 60));
}
