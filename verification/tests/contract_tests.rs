use tpt_formal::contract::{ContractError, Invariant};

struct Bounded {
    lo: i32,
    hi: i32,
}
impl Invariant for Bounded {
    fn inv(&self) -> bool {
        self.lo <= self.hi
    }
    fn check(&self) -> bool {
        self.lo <= self.hi
    }
}

fn fail(kind: &'static str, expr: &'static str, line: u32) -> ! {
    let err = ContractError { kind, expr, file: "tests/contract_tests.rs", line };
    panic!("{}", err.message())
}

#[test]
fn preconditions_pass() {
    let x = 5;
    if !(x > 0) {
        fail("precondition", "x > 0", 23);
    }
    if !(x < 10) {
        fail("precondition", "x < 10", 26);
    }
}

#[test]
#[should_panic(expected = "precondition")]
fn precondition_fails() {
    let x = -1;
    if !(x > 0) {
        fail("precondition", "x > 0", 35);
    }
}

#[test]
fn postcondition_and_invariant() {
    let b = Bounded { lo: 0, hi: 10 };
    if !(b.check()) {
        fail("invariant", "b.check()", 43);
    }
    if !Invariant::check(&b) {
        fail("invariant", "tpt_formal::contract::Invariant::check(v)", 46);
    }
}

#[test]
#[should_panic(expected = "invariant")]
fn invariant_fails() {
    let b = Bounded { lo: 10, hi: 0 };
    if !Invariant::check(&b) {
        fail("invariant", "tpt_formal::contract::Invariant::check(v)", 55);
    }
}

#[test]
fn loop_invariant_holds() {
    let mut sum = 0i32;
    let mut i = 0i32;
    if !(sum == i * (i - 1) / 2 || i == 0) {
        fail("loop-invariant", "sum == i * (i - 1) / 2 || i == 0", 64);
    }
    while i < 5 {
        if !(sum >= 0) {
            fail("loop-invariant", "sum >= 0", 68);
        }
        sum += i;
        i += 1;
    }
    assert_eq!(sum, 10);
}

#[test]
fn contract_error_message() {
    let err = ContractError { kind: "precondition", expr: "x > 0", file: "src/main.rs", line: 42 };
    assert_eq!(err.message(), "precondition violated at src/main.rs:42: x > 0");
    let copy = err;
    assert_eq!(copy, err);
}
