use tpt_formal::det_proptest::{check_prop, DeterministicRng, Outcome};

#[test]
fn rng_is_deterministic() {
    let mut a = DeterministicRng::new(42);
    let mut b = DeterministicRng::new(42);
    assert_eq!(a.next_u64(), b.next_u64());
    assert_eq!(a.gen_range(100), b.gen_range(100));
}

#[test]
fn property_passes() {
    let out = check_prop(&(), 100, 1, |x: u64| x.wrapping_add(1) != x.wrapping_sub(1));
    assert!(matches!(out, Outcome::Passed { .. }));
}

#[test]
fn property_finds_counterexample() {
    let out = check_prop(&(), 100, 7, |x: u64| x % 2 == 0);
    match out {
        Outcome::Failed(ce) => assert!(ce.input % 2 != 0),
        Outcome::Passed { .. } => panic!("expected failure"),
    }
}

fn xorshift_star(state: u64) -> (u64, u64) {
    let mut x = state;
    x ^= x >> 12;
    x ^= x << 25;
    x ^= x >> 27;
    (x, x.wrapping_mul(0x2545_F491_4F6C_DD1D))
}

#[test]
fn outputs_follow_xorshift_star() {
    let mut rng = DeterministicRng::new(42);
    let (s1, out1) = xorshift_star(42);
    assert_eq!(rng.next_u64(), out1);
    let (_, out2) = xorshift_star(s1);
    assert_eq!(rng.next_u64(), out2);
    // A zero seed is remapped to a fixed non-zero state.
    let mut z = DeterministicRng::new(0);
    let (_, zout) = xorshift_star(0x9E37_79B9_7F4A_7C15);
    assert_eq!(z.next_u64(), zout);
}

#[test]
fn gen_range_stays_in_range() {
    let mut rng = DeterministicRng::new(3);
    for n in 1..50u64 {
        assert!(rng.gen_range(n) < n);
    }
    assert_eq!(rng.gen_range(0), 0);
}

#[test]
fn fill_bytes_uses_little_endian_words() {
    let mut rng = DeterministicRng::new(9);
    let mut copy = rng.clone();
    let mut buf = [0u8; 11];
    rng.fill_bytes(&mut buf);
    let w0 = copy.next_u64().to_le_bytes();
    let w1 = copy.next_u64().to_le_bytes();
    assert_eq!(&buf[..8], &w0[..]);
    assert_eq!(&buf[8..], &w1[..3]);
    assert_eq!(rng.next_u64(), copy.next_u64());
}

#[test]
fn failing_case_is_the_first_and_reproducible() {
    let out1 = check_prop(&(), 1000, 5, |x: u32| x < 4_000_000_000);
    let out2 = check_prop(&(), 1000, 5, |x: u32| x < 4_000_000_000);
    assert_eq!(out1, out2);
    if let Outcome::Failed(ce) = out1 {
        assert!(ce.input >= 4_000_000_000);
        assert_eq!(ce.seed, 5);
        let mut rng = DeterministicRng::new(5);
        for _ in 0..ce.case {
            assert!((rng.next_u64() as u32) < 4_000_000_000);
        }
    }
}
