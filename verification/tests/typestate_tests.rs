use tpt_formal::typestate::bounded::Bounded;
use tpt_formal::typestate::ghost::{GhostValue, State, Stateful, Token};
use tpt_formal::typestate::newtype::Newtype;
use tpt_formal::typestate::phantom::{covariant, Covariant};
use tpt_formal::typestate::safe_cast::{safe_cast, try_safe_cast, SafeCast, TrySafeCast};

#[test]
fn bounded_rejects_out_of_range() {
    assert!(Bounded::new(5u8, 0, 10).is_some());
    assert!(Bounded::new(11u8, 0, 10).is_none());
    assert!(Bounded::new(5u8, 10, 0).is_none());
}

#[test]
fn bounded_clamp_values() {
    let b = Bounded::new(5u8, 0, 10).unwrap();
    assert_eq!(Bounded::clamp(&b, 20).get(), 10);
    assert_eq!(Bounded::clamp(&b, 255).get(), 10);
    assert_eq!(Bounded::clamp(&b, 7).get(), 7);
    let s = Bounded::new(5i8, 0, 10).unwrap();
    assert_eq!(Bounded::clamp(&s, -1).get(), 0);
    assert_eq!(Bounded::min(&Bounded::clamp(&s, -1)), 0);
    assert_eq!(Bounded::max(&Bounded::clamp(&s, -1)), 10);
}

struct Locked;
struct Unlocked;
impl State for Locked {}
impl State for Unlocked {}

#[test]
fn stateful_round_trips() {
    let s = Stateful::<Locked, u32>::new_unchecked(7);
    assert_eq!(*s.as_ref(), 7);
    assert_eq!(s.into_inner(), 7);
}

#[test]
fn ghost_preserves_value() {
    let g = GhostValue::<(), u16>::new(42);
    assert_eq!(g.into_inner(), 42);
}

#[test]
fn token_is_constructible() {
    let _tok: Token<Unlocked> = Token::new();
}

#[derive(Debug, Clone, Copy, PartialEq, Eq, PartialOrd, Ord, Hash)]
pub struct UserId(u64);

impl Newtype for UserId {
    type Inner = u64;
    fn wrapped(&self) -> u64 {
        self.0
    }
    fn from_inner(inner: u64) -> Self {
        UserId(inner)
    }
    fn into_inner(self) -> u64 {
        self.0
    }
}

#[derive(Debug, Clone, Copy, PartialEq, Eq, PartialOrd, Ord, Hash)]
pub struct Tag(u32);

impl Newtype for Tag {
    type Inner = u32;
    fn wrapped(&self) -> u32 {
        self.0
    }
    fn from_inner(inner: u32) -> Self {
        Tag(inner)
    }
    fn into_inner(self) -> u32 {
        self.0
    }
}

#[test]
fn newtype_is_distinct() {
    let a = UserId::from_inner(1);
    let b = Tag::from_inner(1);
    assert_eq!(a.into_inner(), 1u64);
    assert_eq!(b.into_inner(), 1u32);
}

#[test]
fn newtype_orders_and_hashes() {
    let a = UserId::from_inner(2);
    let b = UserId::from_inner(3);
    assert!(a < b);
    let mut set = std::collections::HashSet::new();
    set.insert(a);
    assert!(set.contains(&a));
    assert!(!set.contains(&b));
}

#[test]
fn narrowing_rejects_out_of_range() {
    match try_safe_cast::<u16, u8>(300) {
        Err(e) => assert!(e.from_type() == "u16" && e.to_type() == "u8"),
        Ok(_) => panic!("expected an error"),
    }
    assert_eq!(try_safe_cast::<u16, u8>(10), Ok(10u8));
    match try_safe_cast::<u32, u16>(70000) {
        Err(e) => assert!(e.from_type() == "u32" && e.to_type() == "u16"),
        Ok(_) => panic!("expected an error"),
    }
}

#[test]
fn free_functions_work() {
    assert_eq!(safe_cast::<u8, u64>(5), 5u64);
    assert_eq!(try_safe_cast::<u32, u8>(255), Ok(255u8));
}

#[test]
fn casts_keep_the_value_at_the_limits() {
    let x: i128 = i64::MIN.safe_cast();
    assert_eq!(x, i64::MIN as i128);
    let r: Result<i8, _> = (-129i32).try_safe_cast();
    assert!(r.is_err());
    assert_eq!(try_safe_cast::<i64, i32>(i32::MIN as i64), Ok(i32::MIN));
    assert!(try_safe_cast::<i64, i32>(i32::MAX as i64 + 1).is_err());
    let e = try_safe_cast::<u64, u8>(256).unwrap_err();
    assert_eq!(e.message(), "safe cast from u64 to u8 out of range or lossy");
}

#[test]
fn markers_compare_equal() {
    let a: Covariant<u8> = covariant();
    let b = Covariant::<u8>::new();
    assert_eq!(a, b);
    let c = a;
    assert_eq!(c, Covariant::default());
}

#[test]
fn widening_is_infallible() {
    let x: u32 = 200u8.safe_cast();
    assert_eq!(x, 200u32);
}
