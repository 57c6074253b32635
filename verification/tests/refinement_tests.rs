use tpt_formal::contract::{ContractError, Invariant};
use tpt_formal::refinement::{Predicate, Refined};

struct Positive;
impl Predicate<i64> for Positive {
    fn holds(value: i64) -> bool {
        value > 0
    }
    fn check(value: &i64) -> bool {
        *value > 0
    }
}

struct NonEmpty<T> {
    data: T,
}
impl<T: AsRef<[u8]>> NonEmpty<T> {
    fn len(&self) -> usize {
        self.data.as_ref().len()
    }
}
impl<T: AsRef<[u8]>> Invariant for NonEmpty<T> {
    fn inv(&self) -> bool {
        !self.data.as_ref().is_empty()
    }
    fn check(&self) -> bool {
        !self.data.as_ref().is_empty()
    }
}

#[test]
fn refines_when_predicate_holds() {
    let r = Refined::<i64, Positive>::new(5).unwrap();
    assert_eq!(*r.get(), 5);
    assert!(Refined::<i64, Positive>::new(-1).is_err());
}

#[test]
fn invariant_as_predicate() {
    let ne = NonEmpty { data: [1u8, 2, 3] };
    let r = Refined::<NonEmpty<[u8; 3]>, NonEmpty<[u8; 3]>>::new(ne).unwrap();
    assert_eq!(r.get().len(), 3);
}

struct PositiveF;
impl Predicate<f64> for PositiveF {
    fn holds(value: f64) -> bool {
        value > 0.0
    }
    fn check(value: &f64) -> bool {
        *value > 0.0
    }
}

#[test]
fn refined_value_satisfies_contract_invariant() {
    let r = Refined::<f64, PositiveF>::new(3.0).unwrap();
    assert!(*r.get() > 0.0);
    if !(*r.get() < 10.0) {
        let err = ContractError {
            kind: "invariant",
            expr: "*r.get() < 10.0",
            file: "tests/refinement_tests.rs",
            line: 50,
        };
        panic!("{}", err.message());
    }
    assert_eq!(*r.get(), 3.0);
}

#[test]
fn rejected_value_is_not_refined() {
    assert!(Refined::<f64, PositiveF>::new(-1.0).is_err());
}

#[test]
fn refinement_round_trips_and_maps() {
    let r = Refined::<i64, Positive>::new(7).unwrap();
    let copy = r;
    assert_eq!(copy.into_inner(), 7);
    let doubled = r.map(|v| v * 2);
    assert_eq!(*doubled.get(), 14);
    let empty = NonEmpty { data: [0u8; 0] };
    assert!(Refined::<NonEmpty<[u8; 0]>, NonEmpty<[u8; 0]>>::new(empty).is_err());
}

#[test]
fn refine_error_describes_the_predicate() {
    let e = Refined::<i64, Positive>::new(-1).err().unwrap();
    assert_eq!(e.predicate, "refinement predicate");
}
