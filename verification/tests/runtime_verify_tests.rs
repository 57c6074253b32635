use tpt_formal::runtime_verify::{Formula, Monitor, Step, Trace, Verdict};

fn step(names: &[&str]) -> Step {
    Step::from_names(names)
}

#[test]
fn atom_and_boolean() {
    let t = Trace::step(&["a", "b"]);
    assert_eq!(Monitor::check(&Formula::atom("a"), &t), Verdict::Satisfied);
    assert_eq!(Monitor::check(&Formula::atom("c"), &t), Verdict::Violated);
    let not_a = Formula::not(Formula::atom("a"));
    assert_eq!(Monitor::check(&not_a, &t), Verdict::Violated);
    let a_and_b = Formula::and(Formula::atom("a"), Formula::atom("b"));
    assert_eq!(Monitor::check(&a_and_b, &t), Verdict::Satisfied);
    let a_or_c = Formula::or(Formula::atom("a"), Formula::atom("c"));
    assert_eq!(Monitor::check(&a_or_c, &t), Verdict::Satisfied);
}

#[test]
fn globally_violated() {
    let spec = Formula::globally(Formula::atom("ok"));
    let mut t = Trace::new();
    t.push(step(&["ok"]));
    t.push(step(&["bad"]));
    assert_eq!(Monitor::check(&spec, &t), Verdict::Violated);
    let mut t2 = Trace::new();
    t2.push(step(&["ok"]));
    assert_eq!(Monitor::check(&spec, &t2), Verdict::Inconclusive);
}

#[test]
fn request_eventually_ack() {
    let spec = Formula::globally(Formula::implies(
        Formula::atom("req"),
        Formula::eventually(Formula::atom("ack")),
    ));
    let mut mon = Monitor::new(spec.clone());
    mon.observe(&step(&["req"]));
    assert_eq!(mon.verdict(), Verdict::Inconclusive);
    mon.observe(&step(&["ack"]));
    assert_eq!(mon.verdict(), Verdict::Inconclusive);

    let mut mon2 = Monitor::new(spec.clone());
    mon2.observe(&step(&["req"]));
    assert_eq!(mon2.verdict(), Verdict::Inconclusive);
}

#[test]
fn until_semantics() {
    let spec = Formula::until(Formula::atom("a"), Formula::atom("b"));
    let mut t = Trace::new();
    t.push(step(&["a"]));
    t.push(step(&["a"]));
    t.push(step(&["b"]));
    assert_eq!(Monitor::check(&spec, &t), Verdict::Satisfied);

    let mut t2 = Trace::new();
    t2.push(step(&["a"]));
    t2.push(step(&["a"]));
    assert_eq!(Monitor::check(&spec, &t2), Verdict::Inconclusive);

    let mut t3 = Trace::new();
    t3.push(step(&["a"]));
    t3.push(step(&[]));
    assert_eq!(Monitor::check(&spec, &t3), Verdict::Violated);
}

#[test]
fn next_semantics() {
    let spec = Formula::next(Formula::atom("b"));
    let mut t = Trace::new();
    t.push(step(&["a"]));
    t.push(step(&["b"]));
    assert_eq!(Monitor::check(&spec, &t), Verdict::Satisfied);
    let mut t2 = Trace::new();
    t2.push(step(&["a"]));
    assert_eq!(Monitor::check(&spec, &t2), Verdict::Inconclusive);
}

#[test]
fn incremental_monitor() {
    let spec = Formula::globally(Formula::atom("ok"));
    let mut mon = Monitor::new(spec);
    mon.observe(&step(&["ok"]));
    assert_eq!(mon.verdict(), Verdict::Inconclusive);
    mon.observe(&step(&["nope"]));
    assert_eq!(mon.verdict(), Verdict::Violated);
}

#[test]
fn definite_verdicts_survive_more_steps() {
    let spec = Formula::until(Formula::atom("a"), Formula::atom("b"));
    let mut mon = Monitor::new(spec);
    mon.observe(&step(&["a"]));
    mon.observe(&step(&["b"]));
    assert_eq!(mon.verdict(), Verdict::Satisfied);
    mon.observe(&step(&[]));
    mon.observe(&step(&["c"]));
    assert_eq!(mon.verdict(), Verdict::Satisfied);
}

#[test]
fn until_with_a_temporal_left_operand_waits_for_it() {
    // (G p) U q on [{p}, {p, q}]: G p is still open at position 0, so the
    // verdict waits; one more step without p breaks G p, and with it the
    // Until, since q failed at position 0.
    let spec = Formula::until(Formula::globally(Formula::atom("p")), Formula::atom("q"));
    let mut mon = Monitor::new(spec);
    mon.observe(&step(&["p"]));
    mon.observe(&step(&["p", "q"]));
    assert_eq!(mon.verdict(), Verdict::Inconclusive);
    mon.observe(&step(&[]));
    assert_eq!(mon.verdict(), Verdict::Violated);
    mon.observe(&step(&["p", "q"]));
    assert_eq!(mon.verdict(), Verdict::Violated);
}

#[test]
fn until_with_an_open_right_operand_is_not_violated() {
    // a U F c on [{}]: a fails, but F c may still come true at position 0.
    let spec = Formula::until(Formula::atom("a"), Formula::eventually(Formula::atom("c")));
    let mut t = Trace::new();
    t.push(step(&[]));
    assert_eq!(Monitor::check(&spec, &t), Verdict::Inconclusive);
    t.push(step(&["c"]));
    assert_eq!(Monitor::check(&spec, &t), Verdict::Satisfied);
}

#[test]
fn until_fails_where_both_operands_fail_later() {
    // a U b on [{a}, {a}, {}]: b never came and a broke at position 2.
    let spec = Formula::until(Formula::atom("a"), Formula::atom("b"));
    let mut mon = Monitor::new(spec);
    mon.observe(&step(&["a"]));
    mon.observe(&step(&["a"]));
    assert_eq!(mon.verdict(), Verdict::Inconclusive);
    mon.observe(&step(&[]));
    assert_eq!(mon.verdict(), Verdict::Violated);
    mon.observe(&step(&["b"]));
    assert_eq!(mon.verdict(), Verdict::Violated);
}

#[test]
fn eventually_is_never_violated_on_a_prefix() {
    let spec = Formula::eventually(Formula::atom("x"));
    let mut t = Trace::new();
    assert_eq!(Monitor::check(&spec, &t), Verdict::Inconclusive);
    t.push(step(&["y"]));
    assert_eq!(Monitor::check(&spec, &t), Verdict::Inconclusive);
    t.push(step(&["x"]));
    assert_eq!(Monitor::check(&spec, &t), Verdict::Satisfied);
}

#[test]
fn verdict_combinators_and_trace_api() {
    assert_eq!(Verdict::Satisfied.and(Verdict::Inconclusive), Verdict::Inconclusive);
    assert_eq!(Verdict::Violated.or(Verdict::Satisfied), Verdict::Satisfied);
    assert_eq!(Verdict::Violated.implies(Verdict::Violated), Verdict::Satisfied);
    assert_eq!(Verdict::Satisfied.implies(Verdict::Violated), Verdict::Violated);
    let mut mon = Monitor::new(Formula::atom("a"));
    let t = Trace::step(&["a"]);
    mon.observe_trace(&t);
    assert_eq!(mon.trace().len(), 1);
    assert!(!mon.trace().is_empty());
    assert!(step(&["a", "b"]).has("b"));
    assert_eq!(step(&["a", "b"]), step(&["b", "a"]));
    assert_eq!(mon.trace().steps()[0], step(&["a"]));
}
